use vstd::prelude::*;
use vstd::string::StrSliceExecFns;

use crate::text::{copy_range, str_chars};
use crate::wrap::push_all;

verus! {

/// One aligned chunk of a character-level diff between two texts.
pub enum Chunk {
    /// A run present in both texts.
    Equal(Vec<char>),
    /// A run present only in the first text.
    Delete(Vec<char>),
    /// A run present only in the second text.
    Insert(Vec<char>),
}

/// The mathematical value of a `Chunk`.
#[verifier::ext_equal]
pub enum ChunkS {
    Equal(Seq<char>),
    Delete(Seq<char>),
    Insert(Seq<char>),
}

impl DeepView for Chunk {
    type V = ChunkS;

    open spec fn deep_view(&self) -> ChunkS {
        match self {
            Chunk::Equal(t) => ChunkS::Equal(t.deep_view()),
            Chunk::Delete(t) => ChunkS::Delete(t.deep_view()),
            Chunk::Insert(t) => ChunkS::Insert(t.deep_view()),
        }
    }
}

/// One edit operation: replace the characters of the original text in
/// `[start, end)` by `insert`. A pure insertion has `start == end`; a pure
/// deletion has an empty `insert`; no edit has both.
pub struct Edit {
    pub start: usize,
    pub end: usize,
    pub insert: Vec<char>,
}

/// The mathematical value of an `Edit`.
#[verifier::ext_equal]
pub struct EditS {
    pub start: int,
    pub end: int,
    pub insert: Seq<char>,
}

impl DeepView for Edit {
    type V = EditS;

    open spec fn deep_view(&self) -> EditS {
        EditS { start: self.start as int, end: self.end as int, insert: self.insert.deep_view() }
    }
}

/// The text a chunk carries.
pub open spec fn chunk_text(c: ChunkS) -> Seq<char> {
    match c {
        ChunkS::Equal(t) => t,
        ChunkS::Delete(t) => t,
        ChunkS::Insert(t) => t,
    }
}

/// The first text described by a chunk sequence: the concatenation of its
/// `Equal` and `Delete` chunks.
pub open spec fn chunks_left(cs: Seq<ChunkS>) -> Seq<char>
    decreases cs.len(),
{
    if cs.len() == 0 {
        Seq::empty()
    } else {
        (match cs[0] {
            ChunkS::Equal(t) => t,
            ChunkS::Delete(t) => t,
            ChunkS::Insert(_) => Seq::empty(),
        }) + chunks_left(cs.drop_first())
    }
}

/// The second text described by a chunk sequence: the concatenation of its
/// `Equal` and `Insert` chunks.
pub open spec fn chunks_right(cs: Seq<ChunkS>) -> Seq<char>
    decreases cs.len(),
{
    if cs.len() == 0 {
        Seq::empty()
    } else {
        (match cs[0] {
            ChunkS::Equal(t) => t,
            ChunkS::Insert(t) => t,
            ChunkS::Delete(_) => Seq::empty(),
        }) + chunks_right(cs.drop_first())
    }
}

/// A normalized chunk sequence: every chunk is non-empty, an `Insert` is
/// followed only by an `Equal`, and a `Delete` never directly by another
/// `Delete`. So runs of changes always take the form `Delete`, `Insert`, or
/// `Delete` then `Insert`, separated by non-empty `Equal` chunks.
pub open spec fn chunks_normal(cs: Seq<ChunkS>) -> bool {
    &&& forall|k: int| 0 <= k < cs.len() ==> chunk_text(#[trigger] cs[k]).len() > 0
    &&& forall|k: int| 0 <= k < cs.len() - 1 ==> ((#[trigger] cs[k]) is Insert ==> cs[k + 1] is Equal)
    &&& forall|k: int| 0 <= k < cs.len() - 1 ==> !((#[trigger] cs[k]) is Delete && cs[k + 1] is Delete)
}

/// The pending change texts flushed as chunks: the collected deletion, if
/// any, then the collected insertion, if any.
pub open spec fn flush_chunks(pd: Seq<char>, pi: Seq<char>) -> Seq<ChunkS> {
    (if pd.len() > 0 {
        seq![ChunkS::Delete(pd)]
    } else {
        Seq::<ChunkS>::empty()
    }) + (if pi.len() > 0 {
        seq![ChunkS::Insert(pi)]
    } else {
        Seq::<ChunkS>::empty()
    })
}

/// Normalization of a chunk sequence, carrying the pending deletion and
/// insertion texts: empty chunks are dropped, runs of changes are merged
/// with the deletion put before the insertion, and the equal runs in
/// between are kept.
pub open spec fn normal_from(cs: Seq<ChunkS>, pd: Seq<char>, pi: Seq<char>) -> Seq<ChunkS>
    decreases cs.len(),
{
    if cs.len() == 0 {
        flush_chunks(pd, pi)
    } else {
        match cs[0] {
            ChunkS::Equal(t) => if t.len() == 0 {
                normal_from(cs.drop_first(), pd, pi)
            } else {
                flush_chunks(pd, pi) + seq![ChunkS::Equal(t)] + normal_from(
                    cs.drop_first(),
                    Seq::empty(),
                    Seq::empty(),
                )
            },
            ChunkS::Delete(t) => normal_from(cs.drop_first(), pd + t, pi),
            ChunkS::Insert(t) => normal_from(cs.drop_first(), pd, pi + t),
        }
    }
}

/// The normalized form of a chunk sequence.
pub open spec fn normal_of(cs: Seq<ChunkS>) -> Seq<ChunkS> {
    normal_from(cs, Seq::empty(), Seq::empty())
}

/// Whether the edits are ordered and non-overlapping: each edit's range
/// starts no earlier than `lo` and no earlier than the previous edit's end,
/// and all ranges end by `hi`.
pub open spec fn edits_chain(edits: Seq<Edit>, lo: int, hi: int) -> bool
    decreases edits.len(),
{
    if edits.len() == 0 {
        lo <= hi
    } else {
        lo <= edits[0].start as int && edits[0].start <= edits[0].end && edits_chain(
            edits.drop_first(),
            edits[0].end as int,
            hi,
        )
    }
}

/// The text produced by applying the edits to `orig[from..upto]`: the
/// characters outside all edit ranges are kept, each edit's range is
/// replaced by its insert text.
pub open spec fn apply_upto(orig: Seq<char>, edits: Seq<Edit>, from: int, upto: int) -> Seq<char>
    decreases edits.len(),
{
    if edits.len() == 0 {
        orig.subrange(from, upto)
    } else {
        orig.subrange(from, edits[0].start as int) + edits[0].insert@ + apply_upto(
            orig,
            edits.drop_first(),
            edits[0].end as int,
            upto,
        )
    }
}

/// The text produced by applying the edits to the whole of `orig`.
pub open spec fn spec_apply(orig: Seq<char>, edits: Seq<Edit>) -> Seq<char> {
    apply_upto(orig, edits, 0, orig.len() as int)
}

/// The edit list a normalized chunk sequence folds into, with `pos` the
/// cursor over the first text: an `Equal` run advances the cursor, a
/// `Delete` run directly followed by an `Insert` run becomes one
/// replacement edit, a `Delete` alone a deletion, an `Insert` alone an
/// insertion at the cursor.
pub open spec fn edits_from(cs: Seq<ChunkS>, pos: int) -> Seq<EditS>
    decreases cs.len(),
{
    if cs.len() == 0 {
        Seq::empty()
    } else {
        match cs[0] {
            ChunkS::Equal(t) => edits_from(cs.drop_first(), pos + t.len()),
            ChunkS::Delete(t) => if cs.len() >= 2 && cs[1] is Insert {
                seq![EditS { start: pos, end: pos + t.len(), insert: chunk_text(cs[1]) }]
                    + edits_from(cs.skip(2), pos + t.len())
            } else {
                seq![EditS { start: pos, end: pos + t.len(), insert: Seq::empty() }] + edits_from(
                    cs.drop_first(),
                    pos + t.len(),
                )
            },
            ChunkS::Insert(t) => seq![EditS { start: pos, end: pos, insert: t }] + edits_from(
                cs.drop_first(),
                pos,
            ),
        }
    }
}

/// The edit list of a normalized chunk sequence.
pub open spec fn spec_edits_of(cs: Seq<ChunkS>) -> Seq<EditS> {
    edits_from(cs, 0)
}

/// A chain's lower bound never exceeds its upper bound.
pub proof fn lemma_chain_bounds(edits: Seq<Edit>, lo: int, hi: int)
    requires
        edits_chain(edits, lo, hi),
    ensures
        lo <= hi,
    decreases edits.len(),
{
    if edits.len() > 0 {
        lemma_chain_bounds(edits.drop_first(), edits[0].end as int, hi);
    }
}

/// A chain of edits bounded by `hi` is also bounded by any larger `hi2`.
proof fn lemma_chain_grow(edits: Seq<Edit>, lo: int, hi: int, hi2: int)
    requires
        edits_chain(edits, lo, hi),
        hi <= hi2,
    ensures
        edits_chain(edits, lo, hi2),
    decreases edits.len(),
{
    if edits.len() > 0 {
        lemma_chain_grow(edits.drop_first(), edits[0].end as int, hi, hi2);
    }
}

/// Appending an edit that starts at or after `hi` keeps the chain ordered.
proof fn lemma_chain_append(edits: Seq<Edit>, e: Edit, lo: int, hi: int, hi2: int)
    requires
        edits_chain(edits, lo, hi),
        hi <= e.start as int,
        e.start <= e.end,
        e.end as int <= hi2,
    ensures
        edits_chain(edits.push(e), lo, hi2),
    decreases edits.len(),
{
    if edits.len() == 0 {
        assert(edits.push(e)[0] == e);
        assert(edits.push(e).drop_first() =~= Seq::<Edit>::empty());
        assert(edits_chain(Seq::<Edit>::empty(), e.end as int, hi2));
        assert(edits_chain(edits.push(e), lo, hi2));
    } else {
        assert(edits.push(e)[0] == edits[0]);
        assert(edits.push(e).drop_first() =~= edits.drop_first().push(e));
        lemma_chain_append(edits.drop_first(), e, edits[0].end as int, hi, hi2);
        assert(edits_chain(edits.push(e), lo, hi2));
    }
}

/// Extending the applied range beyond every edit appends the untouched
/// characters.
proof fn lemma_apply_upto_extend(orig: Seq<char>, edits: Seq<Edit>, from: int, upto: int, upto2: int)
    requires
        edits_chain(edits, from, upto),
        0 <= from,
        upto <= upto2 <= orig.len(),
    ensures
        apply_upto(orig, edits, from, upto2) == apply_upto(orig, edits, from, upto) + orig.subrange(
            upto,
            upto2,
        ),
    decreases edits.len(),
{
    if edits.len() == 0 {
        assert(orig.subrange(from, upto2) =~= orig.subrange(from, upto) + orig.subrange(
            upto,
            upto2,
        ));
    } else {
        lemma_apply_upto_extend(orig, edits.drop_first(), edits[0].end as int, upto, upto2);
        assert(apply_upto(orig, edits, from, upto) == orig.subrange(from, edits[0].start as int)
            + edits[0].insert@ + apply_upto(orig, edits.drop_first(), edits[0].end as int, upto));
        assert(apply_upto(orig, edits, from, upto2) == orig.subrange(from, edits[0].start as int)
            + edits[0].insert@ + apply_upto(orig, edits.drop_first(), edits[0].end as int, upto2));
        assert(orig.subrange(from, edits[0].start as int) + edits[0].insert@ + (apply_upto(
            orig,
            edits.drop_first(),
            edits[0].end as int,
            upto,
        ) + orig.subrange(upto, upto2)) =~= (orig.subrange(from, edits[0].start as int)
            + edits[0].insert@ + apply_upto(orig, edits.drop_first(), edits[0].end as int, upto))
            + orig.subrange(upto, upto2));
    }
}

/// Appending an edit past the applied range appends the untouched
/// characters before it and then its insert text.
proof fn lemma_apply_upto_append(orig: Seq<char>, edits: Seq<Edit>, e: Edit, from: int, upto: int)
    requires
        edits_chain(edits, from, upto),
        0 <= from,
        upto <= e.start as int,
        e.start <= e.end,
        e.end as int <= orig.len(),
    ensures
        apply_upto(orig, edits.push(e), from, e.end as int) == apply_upto(orig, edits, from, upto)
            + orig.subrange(upto, e.start as int) + e.insert@,
    decreases edits.len(),
{
    if edits.len() == 0 {
        assert(edits.push(e)[0] == e);
        assert(edits.push(e).drop_first() =~= Seq::<Edit>::empty());
        assert(apply_upto(orig, Seq::<Edit>::empty(), e.end as int, e.end as int)
            == orig.subrange(e.end as int, e.end as int));
        assert(apply_upto(orig, edits.push(e), from, e.end as int) == orig.subrange(
            from,
            e.start as int,
        ) + e.insert@ + orig.subrange(e.end as int, e.end as int));
        assert(orig.subrange(from, e.start as int) =~= orig.subrange(from, upto) + orig.subrange(
            upto,
            e.start as int,
        ));
        assert(orig.subrange(e.end as int, e.end as int) =~= Seq::<char>::empty());
        assert(orig.subrange(from, e.start as int) + e.insert@ + Seq::<char>::empty() =~= (
        orig.subrange(from, upto) + orig.subrange(upto, e.start as int)) + e.insert@);
        assert((orig.subrange(from, upto) + orig.subrange(upto, e.start as int)) + e.insert@ =~= (
        orig.subrange(from, upto) + Seq::<char>::empty()) + orig.subrange(upto, e.start as int)
            + e.insert@);
        assert(apply_upto(orig, edits, from, upto) == orig.subrange(from, upto));
        assert((orig.subrange(from, upto) + Seq::<char>::empty()) =~= orig.subrange(from, upto));
    } else {
        assert(edits.push(e)[0] == edits[0]);
        assert(edits.push(e).drop_first() =~= edits.drop_first().push(e));
        lemma_apply_upto_append(orig, edits.drop_first(), e, edits[0].end as int, upto);
        assert(apply_upto(orig, edits, from, upto) == orig.subrange(from, edits[0].start as int)
            + edits[0].insert@ + apply_upto(orig, edits.drop_first(), edits[0].end as int, upto));
        assert(apply_upto(orig, edits.push(e), from, e.end as int) == orig.subrange(
            from,
            edits[0].start as int,
        ) + edits[0].insert@ + apply_upto(
            orig,
            edits.drop_first().push(e),
            edits[0].end as int,
            e.end as int,
        ));
        assert(orig.subrange(from, edits[0].start as int) + edits[0].insert@ + (apply_upto(
            orig,
            edits.drop_first(),
            edits[0].end as int,
            upto,
        ) + orig.subrange(upto, e.start as int) + e.insert@) =~= (orig.subrange(
            from,
            edits[0].start as int,
        ) + edits[0].insert@ + apply_upto(orig, edits.drop_first(), edits[0].end as int, upto))
            + orig.subrange(upto, e.start as int) + e.insert@);
    }
}

/// If the tail of `s` from `p` on is `a + b`, then `a` sits at `[p, p+|a|)`
/// and `b` is the tail from `p + |a|`.
proof fn lemma_skip_split(s: Seq<char>, p: int, a: Seq<char>, b: Seq<char>)
    requires
        0 <= p <= s.len(),
        s.skip(p) == a + b,
    ensures
        p + a.len() <= s.len(),
        s.subrange(p, p + a.len()) == a,
        s.skip(p + a.len()) == b,
{
    assert(s.skip(p).len() == a.len() + b.len());
    assert(s.subrange(p, p + a.len()) =~= a) by {
        assert forall|j: int| 0 <= j < a.len() implies s.subrange(p, p + a.len())[j] == a[j] by {
            assert(s.skip(p)[j] == (a + b)[j]);
        }
    }
    assert(s.skip(p + a.len()) =~= b) by {
        assert forall|j: int| 0 <= j < b.len() implies s.skip(p + a.len())[j] == b[j] by {
            assert(s.skip(p + a.len())[j] == s[p + a.len() + j]);
            assert(s.skip(p)[a.len() + j] == s[p + a.len() + j]);
            assert(s.skip(p)[a.len() + j] == (a + b)[a.len() + j]);
            assert((a + b)[a.len() + j] == b[j]);
        }
    }
}

/// The reconstructed texts distribute over concatenation of chunk
/// sequences.
proof fn lemma_chunks_append(a: Seq<ChunkS>, b: Seq<ChunkS>)
    ensures
        chunks_left(a + b) == chunks_left(a) + chunks_left(b),
        chunks_right(a + b) == chunks_right(a) + chunks_right(b),
    decreases a.len(),
{
    if a.len() == 0 {
        assert(a + b =~= b);
        assert(chunks_left(a) =~= Seq::<char>::empty());
        assert(chunks_right(a) =~= Seq::<char>::empty());
        assert(Seq::<char>::empty() + chunks_left(b) =~= chunks_left(b));
        assert(Seq::<char>::empty() + chunks_right(b) =~= chunks_right(b));
    } else {
        assert((a + b)[0] == a[0]);
        assert((a + b).drop_first() =~= a.drop_first() + b);
        lemma_chunks_append(a.drop_first(), b);
        let hl = match a[0] {
            ChunkS::Equal(t) => t,
            ChunkS::Delete(t) => t,
            ChunkS::Insert(_) => Seq::<char>::empty(),
        };
        let hr = match a[0] {
            ChunkS::Equal(t) => t,
            ChunkS::Insert(t) => t,
            ChunkS::Delete(_) => Seq::<char>::empty(),
        };
        assert(hl + (chunks_left(a.drop_first()) + chunks_left(b)) =~= (hl + chunks_left(
            a.drop_first(),
        )) + chunks_left(b));
        assert(hr + (chunks_right(a.drop_first()) + chunks_right(b)) =~= (hr + chunks_right(
            a.drop_first(),
        )) + chunks_right(b));
    }
}

/// The flushed pending changes reconstruct exactly the pending texts.
proof fn lemma_chunks_flush(pd: Seq<char>, pi: Seq<char>)
    ensures
        chunks_left(flush_chunks(pd, pi)) == pd,
        chunks_right(flush_chunks(pd, pi)) == pi,
{
    let d: Seq<ChunkS> = if pd.len() > 0 {
        seq![ChunkS::Delete(pd)]
    } else {
        Seq::<ChunkS>::empty()
    };
    let ins: Seq<ChunkS> = if pi.len() > 0 {
        seq![ChunkS::Insert(pi)]
    } else {
        Seq::<ChunkS>::empty()
    };
    lemma_chunks_append(d, ins);
    assert(chunks_left(Seq::<ChunkS>::empty()) == Seq::<char>::empty());
    assert(chunks_right(Seq::<ChunkS>::empty()) == Seq::<char>::empty());
    if pd.len() > 0 {
        assert(d.drop_first() =~= Seq::<ChunkS>::empty());
        assert(chunks_left(d) =~= pd + Seq::<char>::empty());
        assert(chunks_left(d) =~= pd);
        assert(chunks_right(d) =~= Seq::<char>::empty() + Seq::<char>::empty());
    }
    if pi.len() > 0 {
        assert(ins.drop_first() =~= Seq::<ChunkS>::empty());
        assert(chunks_right(ins) =~= pi + Seq::<char>::empty());
        assert(chunks_right(ins) =~= pi);
        assert(chunks_left(ins) =~= Seq::<char>::empty() + Seq::<char>::empty());
    }
    assert(chunks_left(flush_chunks(pd, pi)) =~= pd);
    assert(chunks_right(flush_chunks(pd, pi)) =~= pi);
}

/// Normalization keeps both reconstructed texts, with the pending changes
/// in front.
proof fn lemma_normal_preserves(cs: Seq<ChunkS>, pd: Seq<char>, pi: Seq<char>)
    ensures
        chunks_left(normal_from(cs, pd, pi)) == pd + chunks_left(cs),
        chunks_right(normal_from(cs, pd, pi)) == pi + chunks_right(cs),
    decreases cs.len(),
{
    if cs.len() == 0 {
        lemma_chunks_flush(pd, pi);
        assert(pd + chunks_left(cs) =~= pd);
        assert(pi + chunks_right(cs) =~= pi);
    } else {
        match cs[0] {
            ChunkS::Equal(t) => {
                if t.len() == 0 {
                    lemma_normal_preserves(cs.drop_first(), pd, pi);
                    assert(t + chunks_left(cs.drop_first()) =~= chunks_left(cs.drop_first()));
                    assert(t + chunks_right(cs.drop_first()) =~= chunks_right(cs.drop_first()));
                } else {
                    lemma_normal_preserves(cs.drop_first(), Seq::empty(), Seq::empty());
                    lemma_chunks_flush(pd, pi);
                    let n = normal_from(cs.drop_first(), Seq::empty(), Seq::empty());
                    lemma_chunks_append(flush_chunks(pd, pi) + seq![ChunkS::Equal(t)], n);
                    lemma_chunks_append(flush_chunks(pd, pi), seq![ChunkS::Equal(t)]);
                    assert(seq![ChunkS::Equal(t)].drop_first() =~= Seq::<ChunkS>::empty());
                    assert(chunks_left(Seq::<ChunkS>::empty()) == Seq::<char>::empty());
                    assert(chunks_right(Seq::<ChunkS>::empty()) == Seq::<char>::empty());
                    assert(chunks_left(seq![ChunkS::Equal(t)]) =~= t + Seq::<char>::empty());
                    assert(chunks_left(seq![ChunkS::Equal(t)]) =~= t);
                    assert(chunks_right(seq![ChunkS::Equal(t)]) =~= t + Seq::<char>::empty());
                    assert(chunks_right(seq![ChunkS::Equal(t)]) =~= t);
                    assert(Seq::<char>::empty() + chunks_left(cs.drop_first()) =~= chunks_left(
                        cs.drop_first(),
                    ));
                    assert(Seq::<char>::empty() + chunks_right(cs.drop_first()) =~= chunks_right(
                        cs.drop_first(),
                    ));
                    assert((pd + t) + chunks_left(cs.drop_first()) =~= pd + (t + chunks_left(
                        cs.drop_first(),
                    )));
                    assert((pi + t) + chunks_right(cs.drop_first()) =~= pi + (t + chunks_right(
                        cs.drop_first(),
                    )));
                }
            },
            ChunkS::Delete(t) => {
                lemma_normal_preserves(cs.drop_first(), pd + t, pi);
                assert((pd + t) + chunks_left(cs.drop_first()) =~= pd + (t + chunks_left(
                    cs.drop_first(),
                )));
                assert(Seq::<char>::empty() + chunks_right(cs.drop_first()) =~= chunks_right(
                    cs.drop_first(),
                ));
            },
            ChunkS::Insert(t) => {
                lemma_normal_preserves(cs.drop_first(), pd, pi + t);
                assert((pi + t) + chunks_right(cs.drop_first()) =~= pi + (t + chunks_right(
                    cs.drop_first(),
                )));
                assert(Seq::<char>::empty() + chunks_left(cs.drop_first()) =~= chunks_left(
                    cs.drop_first(),
                ));
            },
        }
    }
}

/// Normalization produces a normalized chunk sequence.
proof fn lemma_normal_shape(cs: Seq<ChunkS>, pd: Seq<char>, pi: Seq<char>)
    ensures
        chunks_normal(normal_from(cs, pd, pi)),
    decreases cs.len(),
{
    if cs.len() == 0 {
        assert(chunks_normal(flush_chunks(pd, pi))) by {
            let f = flush_chunks(pd, pi);
            assert(forall|k: int| 0 <= k < f.len() ==> chunk_text(#[trigger] f[k]).len() > 0);
        }
    } else {
        match cs[0] {
            ChunkS::Equal(t) => {
                if t.len() == 0 {
                    lemma_normal_shape(cs.drop_first(), pd, pi);
                } else {
                    lemma_normal_shape(cs.drop_first(), Seq::empty(), Seq::empty());
                    let f = flush_chunks(pd, pi);
                    let n = normal_from(cs.drop_first(), Seq::empty(), Seq::empty());
                    let whole = f + seq![ChunkS::Equal(t)] + n;
                    let prefix = f + seq![ChunkS::Equal(t)];
                    assert forall|k: int|
                        0 <= k < whole.len() implies chunk_text(#[trigger] whole[k]).len()
                        > 0 by {
                        if k < prefix.len() {
                            assert(whole[k] == prefix[k]);
                        } else {
                            assert(whole[k] == n[k - prefix.len()]);
                        }
                    }
                    assert forall|k: int|
                        0 <= k < whole.len() - 1 implies ((#[trigger] whole[k]) is Insert
                        ==> whole[k + 1] is Equal) && !(whole[k] is Delete && whole[k + 1]
                        is Delete) by {
                        if k + 1 < prefix.len() {
                            assert(whole[k] == prefix[k]);
                            assert(whole[k + 1] == prefix[k + 1]);
                            assert(prefix[prefix.len() - 1] == ChunkS::Equal(t));
                        } else if k + 1 == prefix.len() {
                            assert(whole[k] == prefix[k]);
                            assert(prefix[prefix.len() - 1] == ChunkS::Equal(t));
                            assert(whole[k] == ChunkS::Equal(t));
                            assert(whole[k + 1] == n[0]);
                        } else {
                            assert(whole[k] == n[k - prefix.len()]);
                            assert(whole[k + 1] == n[k + 1 - prefix.len()]);
                        }
                    }
                }
            },
            ChunkS::Delete(t) => {
                lemma_normal_shape(cs.drop_first(), pd + t, pi);
            },
            ChunkS::Insert(t) => {
                lemma_normal_shape(cs.drop_first(), pd, pi + t);
            },
        }
    }
}

/// Normalizing a sequence of `Equal` chunks leaves only `Equal` chunks.
proof fn lemma_normal_all_equal(cs: Seq<ChunkS>)
    requires
        forall|k: int| 0 <= k < cs.len() ==> (#[trigger] cs[k]) is Equal,
    ensures
        forall|k: int|
            0 <= k < normal_of(cs).len() ==> (#[trigger] normal_of(cs)[k]) is Equal,
    decreases cs.len(),
{
    if cs.len() == 0 {
        assert(flush_chunks(Seq::<char>::empty(), Seq::<char>::empty()) =~= Seq::<ChunkS>::empty());
    } else {
        assert(cs[0] is Equal);
        let rest = cs.drop_first();
        assert(forall|k: int| 0 <= k < rest.len() ==> (#[trigger] rest[k]) is Equal);
        lemma_normal_all_equal(rest);
        match cs[0] {
            ChunkS::Equal(t) => {
                if t.len() == 0 {
                } else {
                    assert(flush_chunks(Seq::<char>::empty(), Seq::<char>::empty())
                        =~= Seq::<ChunkS>::empty());
                    let whole = flush_chunks(Seq::<char>::empty(), Seq::<char>::empty()) + seq![
                        ChunkS::Equal(t),
                    ] + normal_of(rest);
                    assert(normal_of(cs) == whole);
                    assert forall|k: int| 0 <= k < whole.len() implies (#[trigger] whole[k])
                        is Equal by {
                        if k == 0 {
                            assert(whole[0] == ChunkS::Equal(t));
                        } else {
                            assert(whole[k] == normal_of(rest)[k - 1]);
                        }
                    }
                }
            },
            _ => {
                assert(false);
            },
        }
    }
}

/// A normalized sequence stays normalized when its first chunk is dropped.
proof fn lemma_normal_drop(cs: Seq<ChunkS>)
    requires
        chunks_normal(cs),
        cs.len() >= 1,
    ensures
        chunks_normal(cs.drop_first()),
{
    let rest = cs.drop_first();
    assert(forall|k: int| 0 <= k < rest.len() ==> #[trigger] rest[k] == cs[k + 1]);
}

/// The edits a normalized chunk sequence folds into are well shaped: no
/// edit is a no-op (each either deletes something or inserts something),
/// and the starts are strictly ascending.
proof fn lemma_edits_from_shape(cs: Seq<ChunkS>, pos: int)
    requires
        chunks_normal(cs),
    ensures
        forall|k: int|
            0 <= k < edits_from(cs, pos).len() ==> ((#[trigger] edits_from(cs, pos)[k]).start
                < edits_from(cs, pos)[k].end || edits_from(cs, pos)[k].insert.len() > 0),
        forall|k: int|
            0 <= k < edits_from(cs, pos).len() - 1 ==> (#[trigger] edits_from(cs, pos)[k]).start
                < edits_from(cs, pos)[k + 1].start,
        edits_from(cs, pos).len() > 0 ==> edits_from(cs, pos)[0].start >= pos,
    decreases cs.len(),
{
    if cs.len() == 0 {
    } else {
        let es = edits_from(cs, pos);
        match cs[0] {
            ChunkS::Equal(t) => {
                lemma_normal_drop(cs);
                lemma_edits_from_shape(cs.drop_first(), pos + t.len());
                assert(chunk_text(cs[0]).len() > 0);
            },
            ChunkS::Delete(t) => {
                assert(chunk_text(cs[0]) == t);
                assert(t.len() > 0);
                if cs.len() >= 2 && cs[1] is Insert {
                    let e0 = EditS { start: pos, end: pos + t.len(), insert: chunk_text(cs[1]) };
                    let tail = edits_from(cs.skip(2), pos + t.len());
                    assert(es == seq![e0] + tail);
                    lemma_normal_drop(cs);
                    lemma_normal_drop(cs.drop_first());
                    assert(cs.drop_first().drop_first() =~= cs.skip(2));
                    lemma_edits_from_shape(cs.skip(2), pos + t.len());
                    assert(forall|k: int| 0 <= k < tail.len() ==> #[trigger] es[k + 1] == tail[k]);
                    assert(es[0] == e0);
                } else {
                    let e0 = EditS { start: pos, end: pos + t.len(), insert: Seq::empty() };
                    let tail = edits_from(cs.drop_first(), pos + t.len());
                    assert(es == seq![e0] + tail);
                    lemma_normal_drop(cs);
                    lemma_edits_from_shape(cs.drop_first(), pos + t.len());
                    assert(forall|k: int| 0 <= k < tail.len() ==> #[trigger] es[k + 1] == tail[k]);
                    assert(es[0] == e0);
                }
            },
            ChunkS::Insert(t) => {
                assert(chunk_text(cs[0]) == t);
                assert(t.len() > 0);
                let e0 = EditS { start: pos, end: pos, insert: t };
                let rest = cs.drop_first();
                let tail = edits_from(rest, pos);
                assert(es == seq![e0] + tail);
                assert(forall|k: int| 0 <= k < tail.len() ==> #[trigger] es[k + 1] == tail[k]);
                assert(es[0] == e0);
                lemma_normal_drop(cs);
                if rest.len() == 0 {
                    assert(tail =~= Seq::<EditS>::empty());
                } else {
                    assert(cs[0] is Insert);
                    assert(cs[1] is Equal);
                    assert(rest[0] == cs[1]);
                    match rest[0] {
                        ChunkS::Equal(t2) => {
                            assert(chunk_text(cs[1]) == t2);
                            assert(t2.len() > 0);
                            assert(tail == edits_from(rest.drop_first(), pos + t2.len()));
                            lemma_normal_drop(rest);
                            lemma_edits_from_shape(rest.drop_first(), pos + t2.len());
                        },
                        _ => {
                            assert(false);
                        },
                    }
                }
            },
        }
    }
}

/// Relies on dissimilar::diff: it is a pure function of its two arguments,
/// and the returned chunks are consecutive slices of the two inputs, so the
/// `Equal` and `Delete` chunks concatenate to the first input and the
/// `Equal` and `Insert` chunks to the second; equal inputs produce `Equal`
/// chunks only.
#[verifier::external_body]
fn diff_chunks(left: &str, right: &str) -> (r: Vec<Chunk>)
    ensures
        r.deep_view() == chunks_of(left@, right@),
        chunks_left(r.deep_view()) == left@,
        chunks_right(r.deep_view()) == right@,
        left@ == right@ ==> (forall|k: int|
            0 <= k < r.deep_view().len() ==> (#[trigger] r.deep_view()[k]) is Equal),
{
    dissimilar::diff(left, right)
        .into_iter()
        .map(|c| match c {
            dissimilar::Chunk::Equal(s) => Chunk::Equal(s.chars().collect()),
            dissimilar::Chunk::Delete(s) => Chunk::Delete(s.chars().collect()),
            dissimilar::Chunk::Insert(s) => Chunk::Insert(s.chars().collect()),
        })
        .collect()
}

/// The chunk alignment that the character-level diff computes for a pair of
/// texts. The diff is deterministic, so the alignment is a function of the
/// two texts alone.
pub uninterp spec fn chunks_of(left: Seq<char>, right: Seq<char>) -> Seq<ChunkS>;

/// Flushes the pending deletion and insertion as chunks, deletion first.
fn push_flush(out: &mut Vec<Chunk>, pd: Vec<char>, pi: Vec<char>)
    ensures
        final(out).deep_view() == old(out).deep_view() + flush_chunks(pd@, pi@),
{
    let ghost pdv = pd@;
    let ghost piv = pi@;
    if pd.len() > 0 {
        let ghost before = out.deep_view();
        out.push(Chunk::Delete(pd));
        proof {
            assert(out.deep_view() =~~= before.push(ChunkS::Delete(pdv)));
        }
    }
    if pi.len() > 0 {
        let ghost before = out.deep_view();
        out.push(Chunk::Insert(pi));
        proof {
            assert(out.deep_view() =~~= before.push(ChunkS::Insert(piv)));
        }
    }
    proof {
        assert(out.deep_view() =~~= old(out).deep_view() + flush_chunks(pdv, piv));
    }
}

/// Normalizes a chunk sequence, as `normal_of` states: empty chunks are
/// dropped, runs of changes are merged with the deletion put before the
/// insertion, and the equal runs in between are kept.
fn normalize_chunks(chunks: &Vec<Chunk>) -> (r: Vec<Chunk>)
    ensures
        r.deep_view() == normal_of(chunks.deep_view()),
{
    let ghost cv = chunks.deep_view();
    let mut out: Vec<Chunk> = Vec::new();
    let mut pd: Vec<char> = Vec::new();
    let mut pi: Vec<char> = Vec::new();
    let mut i: usize = 0;
    proof {
        assert(cv.skip(0) =~= cv);
        assert(out.deep_view() =~= Seq::<ChunkS>::empty());
        assert(Seq::<ChunkS>::empty() + normal_from(cv, pd@, pi@) =~= normal_from(cv, pd@, pi@));
    }
    while i < chunks.len()
        invariant
            i <= chunks@.len(),
            cv == chunks.deep_view(),
            cv.len() == chunks@.len(),
            normal_of(cv) == out.deep_view() + normal_from(cv.skip(i as int), pd@, pi@),
        decreases chunks@.len() - i,
    {
        let ghost rest = cv.skip(i as int);
        proof {
            assert(rest[0] == cv[i as int]);
            assert(cv[i as int] == chunks@[i as int].deep_view());
            assert(rest.drop_first() =~= cv.skip(i as int + 1));
        }
        match &chunks[i] {
            Chunk::Equal(t) => {
                proof {
                    assert(rest[0] =~~= ChunkS::Equal(t@));
                }
                if t.len() > 0 {
                    let ghost pdv = pd@;
                    let ghost piv = pi@;
                    let ghost out0 = out.deep_view();
                    push_flush(&mut out, pd, pi);
                    pd = Vec::new();
                    pi = Vec::new();
                    let mut copy: Vec<char> = Vec::new();
                    push_all(&mut copy, t);
                    let ghost out1 = out.deep_view();
                    out.push(Chunk::Equal(copy));
                    proof {
                        assert(out.deep_view() =~~= out1.push(ChunkS::Equal(t@)));
                        assert(normal_from(rest, pdv, piv) == flush_chunks(pdv, piv) + seq![
                            ChunkS::Equal(t@),
                        ] + normal_from(cv.skip(i as int + 1), Seq::empty(), Seq::empty()));
                        assert(out0 + (flush_chunks(pdv, piv) + seq![ChunkS::Equal(t@)]
                            + normal_from(cv.skip(i as int + 1), Seq::empty(), Seq::empty()))
                            =~= out.deep_view() + normal_from(
                            cv.skip(i as int + 1),
                            Seq::empty(),
                            Seq::empty(),
                        ));
                        assert(pd@ =~= Seq::<char>::empty());
                        assert(pi@ =~= Seq::<char>::empty());
                    }
                } else {
                    proof {
                        assert(t@.len() == 0);
                        assert(normal_from(rest, pd@, pi@) == normal_from(
                            cv.skip(i as int + 1),
                            pd@,
                            pi@,
                        ));
                    }
                }
            },
            Chunk::Delete(t) => {
                proof {
                    assert(rest[0] =~~= ChunkS::Delete(t@));
                }
                let ghost pdv = pd@;
                push_all(&mut pd, t);
                proof {
                    assert(normal_from(rest, pdv, pi@) == normal_from(
                        cv.skip(i as int + 1),
                        pdv + t@,
                        pi@,
                    ));
                    assert(pd@ == pdv + t@);
                }
            },
            Chunk::Insert(t) => {
                proof {
                    assert(rest[0] =~~= ChunkS::Insert(t@));
                }
                let ghost piv = pi@;
                push_all(&mut pi, t);
                proof {
                    assert(normal_from(rest, pd@, piv) == normal_from(
                        cv.skip(i as int + 1),
                        pd@,
                        piv + t@,
                    ));
                    assert(pi@ == piv + t@);
                }
            },
        }
        i = i + 1;
    }
    proof {
        assert(cv.skip(i as int) =~= Seq::<ChunkS>::empty());
        assert(normal_from(Seq::<ChunkS>::empty(), pd@, pi@) == flush_chunks(pd@, pi@));
    }
    push_flush(&mut out, pd, pi);
    out
}

/// Folds a chunk alignment into its edit list, exactly as `edits_from`
/// states: applying the edits to the first text yields the second, and a
/// `Delete` chunk directly followed by an `Insert` chunk becomes one
/// replacement edit.
pub fn chunks_to_edits(chunks: &Vec<Chunk>) -> (r: Vec<Edit>)
    requires
        chunks_left(chunks.deep_view()).len() <= usize::MAX,
    ensures
        edits_chain(r@, 0, chunks_left(chunks.deep_view()).len() as int),
        spec_apply(chunks_left(chunks.deep_view()), r@) == chunks_right(chunks.deep_view()),
        r.deep_view() == edits_from(chunks.deep_view(), 0),
        (forall|k: int|
            0 <= k < chunks.deep_view().len() ==> (#[trigger] chunks.deep_view()[k]) is Equal)
            ==> r@.len() == 0,
{
    let ghost cv = chunks.deep_view();
    let ghost ltext = chunks_left(cv);
    let ghost rtext = chunks_right(cv);
    let mut out: Vec<Edit> = Vec::new();
    let mut pos: usize = 0;
    let mut i: usize = 0;
    proof {
        assert(cv.skip(0) =~= cv);
        assert(ltext.skip(0) =~= ltext);
        assert(apply_upto(ltext, out@, 0, 0) =~= Seq::<char>::empty());
        assert(Seq::<char>::empty() + chunks_right(cv) =~= rtext);
        assert(out.deep_view() =~= Seq::<EditS>::empty());
        assert(Seq::<EditS>::empty() + edits_from(cv, 0) =~= edits_from(cv, 0));
    }
    while i < chunks.len()
        invariant
            i <= chunks@.len(),
            cv == chunks.deep_view(),
            cv.len() == chunks@.len(),
            pos <= ltext.len(),
            ltext.len() <= usize::MAX,
            ltext == chunks_left(cv),
            rtext == chunks_right(cv),
            edits_chain(out@, 0, pos as int),
            ltext.skip(pos as int) == chunks_left(cv.skip(i as int)),
            rtext == apply_upto(ltext, out@, 0, pos as int) + chunks_right(cv.skip(i as int)),
            edits_from(cv, 0) == out.deep_view() + edits_from(cv.skip(i as int), pos as int),
            (forall|k: int| 0 <= k < cv.len() ==> (#[trigger] cv[k]) is Equal) ==> out@.len() == 0,
        decreases chunks@.len() - i,
    {
        let ghost rest = cv.skip(i as int);
        proof {
            assert(rest[0] == cv[i as int]);
            assert(cv[i as int] == chunks@[i as int].deep_view());
            assert(rest.drop_first() =~= cv.skip(i as int + 1));
        }
        let ghost apply0 = apply_upto(ltext, out@, 0, pos as int);
        match &chunks[i] {
            Chunk::Equal(t) => {
                proof {
                    assert(rest[0] =~~= ChunkS::Equal(t@));
                    assert(chunks_left(rest) == t@ + chunks_left(cv.skip(i as int + 1)));
                    assert(chunks_right(rest) == t@ + chunks_right(cv.skip(i as int + 1)));
                    lemma_skip_split(ltext, pos as int, t@, chunks_left(cv.skip(i as int + 1)));
                }
                let newpos = pos + t.len();
                proof {
                    lemma_apply_upto_extend(ltext, out@, 0, pos as int, newpos as int);
                    lemma_chain_grow(out@, 0, pos as int, newpos as int);
                    assert(ltext.subrange(pos as int, newpos as int) == t@);
                    assert(apply0 + (t@ + chunks_right(cv.skip(i as int + 1))) =~= (apply0 + t@)
                        + chunks_right(cv.skip(i as int + 1)));
                    assert(edits_from(rest, pos as int) == edits_from(
                        cv.skip(i as int + 1),
                        pos as int + t@.len(),
                    ));
                }
                pos = newpos;
                i = i + 1;
            },
            Chunk::Delete(t) => {
                proof {
                    assert(rest[0] =~~= ChunkS::Delete(t@));
                    assert(chunks_left(rest) == t@ + chunks_left(cv.skip(i as int + 1)));
                    assert(chunks_right(rest) == chunks_right(cv.skip(i as int + 1)));
                    lemma_skip_split(ltext, pos as int, t@, chunks_left(cv.skip(i as int + 1)));
                }
                let newpos = pos + t.len();
                let mut merged = false;
                let mut ins: Vec<char> = Vec::new();
                if i + 1 < chunks.len() {
                    match &chunks[i + 1] {
                        Chunk::Insert(u) => {
                            push_all(&mut ins, u);
                            merged = true;
                            proof {
                                assert(cv[i as int + 1] == chunks@[i as int + 1].deep_view());
                                assert(cv[i as int + 1] =~~= ChunkS::Insert(ins@));
                            }
                        },
                        Chunk::Equal(_) => {
                            proof {
                                assert(cv[i as int + 1] == chunks@[i as int + 1].deep_view());
                                assert(!(cv[i as int + 1] is Insert));
                            }
                        },
                        Chunk::Delete(_) => {
                            proof {
                                assert(cv[i as int + 1] == chunks@[i as int + 1].deep_view());
                                assert(!(cv[i as int + 1] is Insert));
                            }
                        },
                    }
                }
                let ghost old_out = out@;
                let ghost old_deep = out.deep_view();
                let e = Edit { start: pos, end: newpos, insert: ins };
                proof {
                    lemma_chain_append(old_out, e, 0, pos as int, newpos as int);
                    lemma_apply_upto_append(ltext, old_out, e, 0, pos as int);
                    assert(ltext.subrange(pos as int, pos as int) =~= Seq::<char>::empty());
                    assert(apply0 + Seq::<char>::empty() + e.insert@ =~= apply0 + e.insert@);
                }
                let ghost es = EditS {
                    start: pos as int,
                    end: newpos as int,
                    insert: e.insert@,
                };
                out.push(e);
                proof {
                    assert(out.deep_view() =~~= old_deep.push(es));
                }
                if merged {
                    proof {
                        let rest1 = cv.skip(i as int + 1);
                        assert(rest1[0] == cv[i as int + 1]);
                        assert(rest1.drop_first() =~= cv.skip(i as int + 2));
                        assert(chunks_left(rest1) == Seq::<char>::empty() + chunks_left(
                            cv.skip(i as int + 2),
                        ));
                        assert(Seq::<char>::empty() + chunks_left(cv.skip(i as int + 2))
                            =~= chunks_left(cv.skip(i as int + 2)));
                        assert(chunks_right(rest1) == e.insert@ + chunks_right(
                            cv.skip(i as int + 2),
                        ));
                        assert(apply0 + (e.insert@ + chunks_right(cv.skip(i as int + 2))) =~= (
                        apply0 + e.insert@) + chunks_right(cv.skip(i as int + 2)));
                        assert(rest.len() >= 2 && rest[1] is Insert);
                        assert(rest.skip(2) =~= cv.skip(i as int + 2));
                        assert(chunk_text(rest[1]) == ins@);
                        assert(edits_from(rest, pos as int) == seq![
                            EditS { start: pos as int, end: pos as int + t@.len(), insert: chunk_text(rest[1]) },
                        ] + edits_from(cv.skip(i as int + 2), pos as int + t@.len()));
                        assert(EditS {
                            start: pos as int,
                            end: pos as int + t@.len(),
                            insert: chunk_text(rest[1]),
                        } =~~= es);
                        assert(old_deep + (seq![es] + edits_from(
                            cv.skip(i as int + 2),
                            newpos as int,
                        )) =~= out.deep_view() + edits_from(cv.skip(i as int + 2), newpos as int));
                    }
                    i = i + 2;
                } else {
                    proof {
                        assert(e.insert@ =~= Seq::<char>::empty());
                        assert(apply0 + e.insert@ =~= apply0);
                        assert(!(rest.len() >= 2 && rest[1] is Insert)) by {
                            if i + 1 < cv.len() {
                                assert(rest[1] == cv[i as int + 1]);
                            }
                        }
                        assert(edits_from(rest, pos as int) == seq![
                            EditS { start: pos as int, end: pos as int + t@.len(), insert: Seq::<char>::empty() },
                        ] + edits_from(cv.skip(i as int + 1), pos as int + t@.len()));
                        assert(EditS {
                            start: pos as int,
                            end: pos as int + t@.len(),
                            insert: Seq::<char>::empty(),
                        } =~~= es);
                        assert(old_deep + (seq![es] + edits_from(
                            cv.skip(i as int + 1),
                            newpos as int,
                        )) =~= out.deep_view() + edits_from(cv.skip(i as int + 1), newpos as int));
                    }
                    i = i + 1;
                }
                pos = newpos;
            },
            Chunk::Insert(u) => {
                proof {
                    assert(rest[0] =~~= ChunkS::Insert(u@));
                    assert(chunks_left(rest) == Seq::<char>::empty() + chunks_left(
                        cv.skip(i as int + 1),
                    ));
                    assert(Seq::<char>::empty() + chunks_left(cv.skip(i as int + 1))
                        =~= chunks_left(cv.skip(i as int + 1)));
                    assert(chunks_right(rest) == u@ + chunks_right(cv.skip(i as int + 1)));
                }
                let mut ins: Vec<char> = Vec::new();
                push_all(&mut ins, u);
                let ghost old_out = out@;
                let ghost old_deep = out.deep_view();
                let e = Edit { start: pos, end: pos, insert: ins };
                proof {
                    lemma_chain_append(old_out, e, 0, pos as int, pos as int);
                    lemma_apply_upto_append(ltext, old_out, e, 0, pos as int);
                    assert(ltext.subrange(pos as int, pos as int) =~= Seq::<char>::empty());
                    assert(apply0 + Seq::<char>::empty() + e.insert@ =~= apply0 + e.insert@);
                    assert(apply0 + (u@ + chunks_right(cv.skip(i as int + 1))) =~= (apply0 + u@)
                        + chunks_right(cv.skip(i as int + 1)));
                }
                let ghost es = EditS { start: pos as int, end: pos as int, insert: e.insert@ };
                out.push(e);
                proof {
                    assert(out.deep_view() =~~= old_deep.push(es));
                    assert(edits_from(rest, pos as int) == seq![
                        EditS { start: pos as int, end: pos as int, insert: u@ },
                    ] + edits_from(cv.skip(i as int + 1), pos as int));
                    assert(EditS { start: pos as int, end: pos as int, insert: u@ } =~~= es);
                    assert(old_deep + (seq![es] + edits_from(cv.skip(i as int + 1), pos as int))
                        =~= out.deep_view() + edits_from(cv.skip(i as int + 1), pos as int));
                }
                i = i + 1;
            },
        }
    }
    proof {
        assert(cv.skip(i as int) =~= Seq::<ChunkS>::empty());
        assert(ltext.skip(pos as int).len() == 0);
        assert(pos as int == ltext.len());
        assert(rtext =~= apply_upto(ltext, out@, 0, ltext.len() as int) + Seq::<char>::empty());
        assert(out.deep_view() + Seq::<EditS>::empty() =~= out.deep_view());
    }
    out
}

/// Computes the edit list that turns `left` into `right`, deterministically
/// in the two texts: the diff's chunk alignment is normalized and folded,
/// exactly as `spec_edits_of` states. Applying the edits to `left` yields
/// exactly `right`; the edits are non-overlapping with strictly ascending
/// starts; none is a no-op; an adjacent deletion and insertion always form
/// one replacement edit; and equal inputs yield no edits at all.
pub fn diff(left: &str, right: &str) -> (r: Vec<Edit>)
    ensures
        edits_chain(r@, 0, left@.len() as int),
        spec_apply(left@, r@) == right@,
        r.deep_view() == spec_edits_of(normal_of(chunks_of(left@, right@))),
        forall|k: int|
            0 <= k < r@.len() ==> ((#[trigger] r@[k]).start < r@[k].end || r@[k].insert@.len()
                > 0),
        forall|k: int| 0 <= k < r@.len() - 1 ==> (#[trigger] r@[k]).start < r@[k + 1].start,
        left@ == right@ ==> r@.len() == 0,
{
    // the character count fits a usize, which bounds the edit cursor
    let _text_len = left.unicode_len();
    let raw = diff_chunks(left, right);
    let chunks = normalize_chunks(&raw);
    proof {
        let cv0 = raw.deep_view();
        lemma_normal_preserves(cv0, Seq::empty(), Seq::empty());
        assert(Seq::<char>::empty() + chunks_left(cv0) =~= chunks_left(cv0));
        assert(Seq::<char>::empty() + chunks_right(cv0) =~= chunks_right(cv0));
        lemma_normal_shape(cv0, Seq::empty(), Seq::empty());
        if left@ == right@ {
            lemma_normal_all_equal(cv0);
        }
    }
    let r = chunks_to_edits(&chunks);
    proof {
        lemma_edits_from_shape(normal_of(chunks_of(left@, right@)), 0);
        let deep = r.deep_view();
        assert(forall|k: int|
            0 <= k < r@.len() ==> (#[trigger] deep[k]) == r@[k].deep_view());
        assert forall|k: int|
            0 <= k < r@.len() implies ((#[trigger] r@[k]).start < r@[k].end
            || r@[k].insert@.len() > 0) by {
            assert(deep[k].start == r@[k].start as int);
            assert(deep[k].end == r@[k].end as int);
            assert(deep[k].insert =~= r@[k].insert@);
        }
        assert forall|k: int|
            0 <= k < r@.len() - 1 implies (#[trigger] r@[k]).start < r@[k + 1].start by {
            assert(deep[k].start == r@[k].start as int);
            assert(deep[k + 1].start == r@[k + 1].start as int);
        }
    }
    r
}

/// Applies an ordered, non-overlapping edit list to a text, exactly as
/// `spec_apply` states.
pub fn apply_edits(text: &str, edits: &Vec<Edit>) -> (r: Vec<char>)
    requires
        edits_chain(edits@, 0, text@.len() as int),
    ensures
        r@ == spec_apply(text@, edits@),
{
    let chars = str_chars(text);
    let mut out: Vec<char> = Vec::new();
    let mut pos: usize = 0;
    let mut i: usize = 0;
    proof {
        assert(edits@.skip(0) =~= edits@);
        assert(Seq::<char>::empty() + apply_upto(chars@, edits@, 0, chars@.len() as int)
            =~= spec_apply(text@, edits@));
    }
    while i < edits.len()
        invariant
            i <= edits@.len(),
            pos <= chars@.len(),
            chars@ == text@,
            edits_chain(edits@.skip(i as int), pos as int, chars@.len() as int),
            spec_apply(text@, edits@) == out@ + apply_upto(
                chars@,
                edits@.skip(i as int),
                pos as int,
                chars@.len() as int,
            ),
        decreases edits@.len() - i,
    {
        let ghost rest = edits@.skip(i as int);
        proof {
            assert(rest[0] == edits@[i as int]);
            assert(rest.drop_first() =~= edits@.skip(i as int + 1));
        }
        let ghost old_out = out@;
        let e = &edits[i];
        proof {
            lemma_chain_bounds(rest.drop_first(), rest[0].end as int, chars@.len() as int);
        }
        copy_range(&mut out, &chars, pos, e.start);
        push_all(&mut out, &e.insert);
        proof {
            assert(apply_upto(chars@, rest, pos as int, chars@.len() as int) == chars@.subrange(
                pos as int,
                e.start as int,
            ) + e.insert@ + apply_upto(
                chars@,
                edits@.skip(i as int + 1),
                e.end as int,
                chars@.len() as int,
            ));
            assert(old_out + (chars@.subrange(pos as int, e.start as int) + e.insert@ + apply_upto(
                chars@,
                edits@.skip(i as int + 1),
                e.end as int,
                chars@.len() as int,
            )) =~= (old_out + chars@.subrange(pos as int, e.start as int) + e.insert@)
                + apply_upto(
                chars@,
                edits@.skip(i as int + 1),
                e.end as int,
                chars@.len() as int,
            ));
        }
        pos = e.end;
        i = i + 1;
    }
    proof {
        assert(edits@.skip(i as int) =~= Seq::<Edit>::empty());
        assert(apply_upto(chars@, edits@.skip(i as int), pos as int, chars@.len() as int)
            == chars@.subrange(pos as int, chars@.len() as int));
    }
    copy_range(&mut out, &chars, pos, chars.len());
    proof {
        assert(out@ =~= spec_apply(text@, edits@));
    }
    out
}

} // verus!
