use vstd::prelude::*;

use crate::diff::{chunks_of, diff, edits_chain, normal_of, spec_apply, spec_edits_of, Edit};
use crate::error::Error;
use crate::laws::{lemma_render_total, wf_events};
use crate::parse::{parse_events, parse_of};
use crate::render::{render, render_spec};
use crate::text::chars_to_string;

verus! {

/// The canonical text of a markdown source: the rendering of its parsed
/// event stream, or the error the rendering reports.
pub open spec fn canonical_of(text: Seq<char>) -> Result<Seq<char>, Error> {
    render_spec(parse_of(text))
}

/// Formats a markdown text: parses it, renders its canonical text, and
/// returns the ordered, non-overlapping edit list that turns the original
/// text into the canonical text. A text that is already canonical yields an
/// empty edit list; a text with unsupported constructs yields the
/// renderer's error.
pub fn fmt(text: &str) -> (r: Result<Vec<Edit>, Error>)
    ensures
        (match r {
            Ok(edits) => canonical_of(text@) matches Ok(canon) && spec_apply(text@, edits@)
                == canon && edits_chain(edits@, 0, text@.len() as int) && (canon == text@
                ==> edits@.len() == 0) && edits.deep_view() == spec_edits_of(
                normal_of(chunks_of(text@, canon)),
            ) && (forall|k: int|
                0 <= k < edits@.len() ==> ((#[trigger] edits@[k]).start < edits@[k].end
                    || edits@[k].insert@.len() > 0)) && (forall|k: int|
                0 <= k < edits@.len() - 1 ==> (#[trigger] edits@[k]).start < edits@[k
                    + 1].start),
            Err(e) => canonical_of(text@) == Err::<Seq<char>, Error>(e),
        }),
        wf_events(parse_of(text@), false, 0) ==> r is Ok,
{
    proof {
        if wf_events(parse_of(text@), false, 0) {
            lemma_render_total(parse_of(text@), crate::render::init_state());
        }
    }
    let events = parse_events(text);
    let canon = match render(&events) {
        Ok(c) => c,
        Err(e) => {
            return Err(e);
        },
    };
    let canon_str = chars_to_string(&canon);
    let edits = diff(text, canon_str.as_str());
    Ok(edits)
}

} // verus!
