use vstd::prelude::*;

use crate::error::Error;
use crate::event::{BlockS, EventS};
use crate::render::{dec_digits, render_events, step, RState};
use crate::wrap::wrap_spec;

verus! {

/// One definitional unfolding of `render_events`: a successful step moves
/// to the next event in the new state.
proof fn lemma_render_unfold(evs: Seq<EventS>, st: RState, st2: RState)
    requires
        evs.len() > 0,
        step(
            evs[0],
            if evs.len() >= 2 {
                Some(evs[1])
            } else {
                None
            },
            st,
        ) == Ok::<RState, Error>(st2),
    ensures
        render_events(evs, st) == render_events(evs.drop_first(), st2),
{
}

/// Code block passthrough: wherever a fenced code block stands in the event
/// stream, its content is reproduced in the output character for
/// character, between
/// the fence line (three backticks and the language identifier) and the
/// closing fence, whatever characters the content holds.
pub proof fn lemma_code_block_passthrough(
    lang: Seq<char>,
    content: Seq<char>,
    rest: Seq<EventS>,
    st: RState,
)
    requires
        !st.in_para,
    ensures
        render_events(
            seq![
                EventS::Start(BlockS::CodeBlock(lang)),
                EventS::Text(content),
                EventS::End(BlockS::CodeBlock(lang)),
            ] + rest,
            st,
        ) == render_events(
            rest,
            RState {
                out: st.out + seq!['\n', '`', '`', '`'] + lang + seq!['\n'] + content + seq![
                    '`',
                    '`',
                    '`',
                    '\n',
                ],
                ..st
            },
        ),
{
    let evs = seq![
        EventS::Start(BlockS::CodeBlock(lang)),
        EventS::Text(content),
        EventS::End(BlockS::CodeBlock(lang)),
    ] + rest;
    let st1 = RState { out: st.out + seq!['\n', '`', '`', '`'] + lang + seq!['\n'], ..st };
    let st2 = RState { out: st1.out + content, ..st1 };
    let st3 = RState { out: st2.out + seq!['`', '`', '`', '\n'], ..st2 };
    assert(evs[0] == EventS::Start(BlockS::CodeBlock(lang)));
    assert(step(evs[0], Some(evs[1]), st) == Ok::<RState, Error>(st1));
    lemma_render_unfold(evs, st, st1);
    let evs1 = evs.drop_first();
    assert(evs1 =~= seq![EventS::Text(content), EventS::End(BlockS::CodeBlock(lang))] + rest);
    assert(evs1[0] == EventS::Text(content));
    assert(step(
        evs1[0],
        if evs1.len() >= 2 {
            Some(evs1[1])
        } else {
            None
        },
        st1,
    ) == Ok::<RState, Error>(st2));
    lemma_render_unfold(evs1, st1, st2);
    let evs2 = evs1.drop_first();
    assert(evs2 =~= seq![EventS::End(BlockS::CodeBlock(lang))] + rest);
    assert(evs2[0] == EventS::End(BlockS::CodeBlock(lang)));
    assert(step(
        evs2[0],
        if evs2.len() >= 2 {
            Some(evs2[1])
        } else {
            None
        },
        st2,
    ) == Ok::<RState, Error>(st3));
    lemma_render_unfold(evs2, st2, st3);
    assert(evs2.drop_first() =~= rest);
    assert(st3 =~= RState {
        out: st.out + seq!['\n', '`', '`', '`'] + lang + seq!['\n'] + content + seq![
            '`',
            '`',
            '`',
            '\n',
        ],
        ..st
    });
}

/// The events of a run of list items, each one a single text run.
pub open spec fn item_events(texts: Seq<Seq<char>>) -> Seq<EventS>
    decreases texts.len(),
{
    if texts.len() == 0 {
        Seq::empty()
    } else {
        seq![
            EventS::Start(BlockS::ListItem),
            EventS::Text(texts[0]),
            EventS::End(BlockS::ListItem),
        ] + item_events(texts.drop_first())
    }
}

/// The rendering of a run of list items: each item's marker and text, one
/// line per item. An ordered list writes the running counter followed by
/// a dot and a space; an unordered list writes a dash and a space for every
/// item, whatever its position.
pub open spec fn items_out(counter: Option<int>, texts: Seq<Seq<char>>) -> Seq<char>
    decreases texts.len(),
{
    if texts.len() == 0 {
        Seq::empty()
    } else {
        (match counter {
            Some(c) => dec_digits(c) + seq!['.', ' '],
            None => seq!['-', ' '],
        }) + texts[0] + (if texts.len() == 1 {
            Seq::<char>::empty()
        } else {
            seq!['\n'] + items_out(
                match counter {
                    Some(c) => Some(c + 1),
                    None => None,
                },
                texts.drop_first(),
            )
        })
    }
}

/// Rendering a run of list items followed by the list's end: each item
/// emits its marker and its text, a newline separates the items but none
/// follows the last, and a blank line follows the close only when the
/// outermost list closes.
proof fn lemma_items_then_end(texts: Seq<Seq<char>>, st: RState)
    requires
        !st.in_para,
        st.depth >= 1,
    ensures
        render_events(item_events(texts) + seq![EventS::End(BlockS::List(None))], st)
            == Ok::<Seq<char>, Error>(
            st.out + items_out(st.counter, texts) + (if st.depth == 1 {
                seq!['\n']
            } else {
                Seq::<char>::empty()
            }),
        ),
    decreases texts.len(),
{
    let evs = item_events(texts) + seq![EventS::End(BlockS::List(None))];
    let tail: Seq<char> = if st.depth == 1 {
        seq!['\n']
    } else {
        Seq::<char>::empty()
    };
    if texts.len() == 0 {
        assert(evs =~= seq![EventS::End(BlockS::List(None))]);
        let st1 = RState {
            depth: st.depth - 1,
            counter: None,
            out: if st.depth == 1 {
                st.out + seq!['\n']
            } else {
                st.out
            },
            ..st
        };
        assert(step(evs[0], if evs.len() >= 2 { Some(evs[1]) } else { None }, st)
            == Ok::<RState, Error>(st1));
        lemma_render_unfold(evs, st, st1);
        assert(evs.drop_first() =~= Seq::<EventS>::empty());
        assert(st.out + items_out(st.counter, texts) + tail =~= st1.out);
    } else {
        let rest = texts.drop_first();
        let marker: Seq<char> = match st.counter {
            Some(c) => dec_digits(c) + seq!['.', ' '],
            None => seq!['-', ' '],
        };
        let ctr2: Option<int> = match st.counter {
            Some(c) => Some(c + 1),
            None => None,
        };
        assert(item_events(texts) == seq![
            EventS::Start(BlockS::ListItem),
            EventS::Text(texts[0]),
            EventS::End(BlockS::ListItem),
        ] + item_events(rest));
        let st1 = RState { counter: ctr2, out: st.out + marker, ..st };
        assert(evs[0] == EventS::Start(BlockS::ListItem));
        assert(step(evs[0], if evs.len() >= 2 { Some(evs[1]) } else { None }, st)
            == Ok::<RState, Error>(st1)) by {
            match st.counter {
                Some(c) => {
                    assert(st.out + (dec_digits(c) + seq!['.', ' ']) =~= st.out + dec_digits(c)
                        + seq!['.', ' ']);
                },
                None => {
                    assert(st.out + seq!['-', ' '] =~= st.out + seq!['-', ' ']);
                },
            }
        }
        lemma_render_unfold(evs, st, st1);
        let evs1 = evs.drop_first();
        assert(evs1 =~= (seq![EventS::Text(texts[0]), EventS::End(BlockS::ListItem)] + item_events(
            rest,
        )) + seq![EventS::End(BlockS::List(None))]);
        let st2 = RState { out: st1.out + texts[0], ..st1 };
        assert(evs1[0] == EventS::Text(texts[0]));
        assert(step(evs1[0], if evs1.len() >= 2 { Some(evs1[1]) } else { None }, st1)
            == Ok::<RState, Error>(st2));
        lemma_render_unfold(evs1, st1, st2);
        let evs2 = evs1.drop_first();
        assert(evs2 =~= (seq![EventS::End(BlockS::ListItem)] + item_events(rest)) + seq![
            EventS::End(BlockS::List(None)),
        ]);
        assert(evs2[0] == EventS::End(BlockS::ListItem));
        let sep: Seq<char> = if rest.len() == 0 {
            Seq::<char>::empty()
        } else {
            seq!['\n']
        };
        let st3 = RState { out: st2.out + sep, ..st2 };
        if rest.len() == 0 {
            assert(item_events(rest) =~= Seq::<EventS>::empty());
            assert(evs2 =~= seq![
                EventS::End(BlockS::ListItem),
                EventS::End(BlockS::List(None)),
            ]);
            assert(evs2[1] == EventS::End(BlockS::List(None)));
            assert(step(evs2[0], Some(evs2[1]), st2) == Ok::<RState, Error>(st2));
            assert(st3 =~= RState { out: st2.out + Seq::<char>::empty(), ..st2 });
            assert(st2.out + Seq::<char>::empty() =~= st2.out);
            assert(st3 =~= st2);
            lemma_render_unfold(evs2, st2, st3);
        } else {
            assert(item_events(rest) == seq![
                EventS::Start(BlockS::ListItem),
                EventS::Text(rest[0]),
                EventS::End(BlockS::ListItem),
            ] + item_events(rest.drop_first()));
            assert(evs2[1] == EventS::Start(BlockS::ListItem));
            assert(step(evs2[0], if evs2.len() >= 2 { Some(evs2[1]) } else { None }, st2)
                == Ok::<RState, Error>(st3));
            lemma_render_unfold(evs2, st2, st3);
        }
        let evs3 = evs2.drop_first();
        assert(evs3 =~= item_events(rest) + seq![EventS::End(BlockS::List(None))]);
        lemma_items_then_end(rest, st3);
        assert(items_out(st.counter, texts) == marker + texts[0] + (if texts.len() == 1 {
            Seq::<char>::empty()
        } else {
            seq!['\n'] + items_out(ctr2, rest)
        }));
        if rest.len() == 0 {
            assert(items_out(ctr2, rest) =~= Seq::<char>::empty());
            assert(st3.out + items_out(ctr2, rest) + tail =~= st.out + (marker + texts[0]
                + Seq::<char>::empty()) + tail);
        } else {
            assert(st3.out + items_out(ctr2, rest) + tail =~= st.out + (marker + texts[0] + (seq![
                '\n',
            ] + items_out(ctr2, rest))) + tail);
        }
    }
}

/// An ordered list started at 5 with three items renders the markers `5.`,
/// `6.` and `7.`, in order, each followed by its item's text.
pub proof fn lemma_ordered_list_numbering(
    t1: Seq<char>,
    t2: Seq<char>,
    t3: Seq<char>,
    st: RState,
)
    requires
        !st.in_para,
        st.depth == 0,
    ensures
        render_events(
            seq![EventS::Start(BlockS::List(Some(5)))] + item_events(seq![t1, t2, t3]) + seq![
                EventS::End(BlockS::List(None)),
            ],
            st,
        ) == Ok::<Seq<char>, Error>(
            st.out + seq!['\n', '5', '.', ' '] + t1 + seq!['\n', '6', '.', ' '] + t2 + seq![
                '\n',
                '7',
                '.',
                ' ',
            ] + t3 + seq!['\n'],
        ),
{
    let texts = seq![t1, t2, t3];
    let evs = seq![EventS::Start(BlockS::List(Some(5)))] + item_events(texts) + seq![
        EventS::End(BlockS::List(None)),
    ];
    let st1 = RState { depth: 1, counter: Some(5), out: st.out + seq!['\n'], ..st };
    assert(texts.len() == 3);
    assert(item_events(texts).len() == 9) by {
        assert(item_events(texts.drop_first().drop_first().drop_first()).len() == 0);
        assert(item_events(texts.drop_first().drop_first()).len() == 3);
        assert(item_events(texts.drop_first()).len() == 6);
    }
    assert(evs[0] == EventS::Start(BlockS::List(Some(5))));
    assert(step(evs[0], if evs.len() >= 2 { Some(evs[1]) } else { None }, st)
        == Ok::<RState, Error>(st1));
    lemma_render_unfold(evs, st, st1);
    assert(evs.drop_first() =~= item_events(texts) + seq![EventS::End(BlockS::List(None))]);
    lemma_items_then_end(texts, st1);
    assert(dec_digits(5) =~= seq!['5']);
    assert(dec_digits(6) =~= seq!['6']);
    assert(dec_digits(7) =~= seq!['7']);
    assert(texts.drop_first() =~= seq![t2, t3]);
    assert(texts.drop_first().drop_first() =~= seq![t3]);
    assert(items_out(Some(7), seq![t3]) =~= (dec_digits(7) + seq!['.', ' ']) + t3
        + Seq::<char>::empty());
    assert(items_out(Some(6), seq![t2, t3]) =~= (dec_digits(6) + seq!['.', ' ']) + t2 + (seq![
        '\n',
    ] + items_out(Some(7), seq![t3])));
    assert(items_out(Some(5), texts) =~= (dec_digits(5) + seq!['.', ' ']) + t1 + (seq!['\n']
        + items_out(Some(6), seq![t2, t3])));
    assert(st1.out + items_out(Some(5), texts) + seq!['\n'] =~= st.out + seq!['\n', '5', '.', ' ']
        + t1 + seq!['\n', '6', '.', ' '] + t2 + seq!['\n', '7', '.', ' '] + t3 + seq!['\n']);
}

/// An unordered list renders the marker `- ` for every one of its items,
/// whatever the item's position, with a blank line only after the list
/// closes.
pub proof fn lemma_unordered_list_markers(texts: Seq<Seq<char>>, st: RState)
    requires
        !st.in_para,
        st.depth == 0,
    ensures
        render_events(
            seq![EventS::Start(BlockS::List(None))] + item_events(texts) + seq![
                EventS::End(BlockS::List(None)),
            ],
            st,
        ) == Ok::<Seq<char>, Error>(st.out + seq!['\n'] + items_out(None, texts) + seq!['\n']),
{
    let evs = seq![EventS::Start(BlockS::List(None))] + item_events(texts) + seq![
        EventS::End(BlockS::List(None)),
    ];
    let st1 = RState { depth: 1, counter: None, out: st.out + seq!['\n'], ..st };
    assert(evs[0] == EventS::Start(BlockS::List(None)));
    assert(evs.len() >= 2);
    assert(step(evs[0], if evs.len() >= 2 { Some(evs[1]) } else { None }, st)
        == Ok::<RState, Error>(st1));
    lemma_render_unfold(evs, st, st1);
    assert(evs.drop_first() =~= item_events(texts) + seq![EventS::End(BlockS::List(None))]);
    lemma_items_then_end(texts, st1);
    assert(st1.out + items_out(None, texts) + seq!['\n'] =~= st.out + seq!['\n'] + items_out(
        None,
        texts,
    ) + seq!['\n']);
}


/// Nesting indentation and blank lines: a list item holding a paragraph and
/// a nested list with its own paragraph renders the outer paragraph wrapped
/// at depth one and the inner paragraph wrapped at depth two, with no blank
/// line after the inner list closes and exactly one after the outer list
/// closes.
pub proof fn lemma_nested_list_indentation(outer: Seq<char>, inner: Seq<char>, st: RState)
    requires
        !st.in_para,
        st.depth == 0,
        st.para == Seq::<char>::empty(),
    ensures
        render_events(
            seq![
                EventS::Start(BlockS::List(None)),
                EventS::Start(BlockS::ListItem),
                EventS::Start(BlockS::Paragraph),
                EventS::Text(outer),
                EventS::End(BlockS::Paragraph),
                EventS::Start(BlockS::List(None)),
                EventS::Start(BlockS::ListItem),
                EventS::Start(BlockS::Paragraph),
                EventS::Text(inner),
                EventS::End(BlockS::Paragraph),
                EventS::End(BlockS::ListItem),
                EventS::End(BlockS::List(None)),
                EventS::End(BlockS::ListItem),
                EventS::End(BlockS::List(None)),
            ],
            st,
        ) == Ok::<Seq<char>, Error>(
            st.out + seq!['\n', '-', ' ', '\n'] + wrap_spec(outer, 1) + seq!['\n', '-', ' ', '\n']
                + wrap_spec(inner, 2) + seq!['\n', '\n'],
        ),
{
    let evs = seq![
        EventS::Start(BlockS::List(None)),
        EventS::Start(BlockS::ListItem),
        EventS::Start(BlockS::Paragraph),
        EventS::Text(outer),
        EventS::End(BlockS::Paragraph),
        EventS::Start(BlockS::List(None)),
        EventS::Start(BlockS::ListItem),
        EventS::Start(BlockS::Paragraph),
        EventS::Text(inner),
        EventS::End(BlockS::Paragraph),
        EventS::End(BlockS::ListItem),
        EventS::End(BlockS::List(None)),
        EventS::End(BlockS::ListItem),
        EventS::End(BlockS::List(None)),
    ];
    let s1 = RState { depth: 1, counter: None, out: st.out + seq!['\n'], ..st };
    assert(step(evs[0], if evs.len() >= 2 { Some(evs[1]) } else { None }, st)
        == Ok::<RState, Error>(s1));
    lemma_render_unfold(evs, st, s1);
    let e1 = evs.drop_first();
    let s2 = RState { out: s1.out + seq!['-', ' '], ..s1 };
    assert(step(e1[0], if e1.len() >= 2 { Some(e1[1]) } else { None }, s1)
        == Ok::<RState, Error>(s2));
    lemma_render_unfold(e1, s1, s2);
    let e2 = e1.drop_first();
    let s3 = RState { in_para: true, out: s2.out + seq!['\n'], ..s2 };
    assert(step(e2[0], if e2.len() >= 2 { Some(e2[1]) } else { None }, s2)
        == Ok::<RState, Error>(s3));
    lemma_render_unfold(e2, s2, s3);
    let e3 = e2.drop_first();
    let s4 = RState { para: s3.para + outer, ..s3 };
    assert(step(e3[0], if e3.len() >= 2 { Some(e3[1]) } else { None }, s3)
        == Ok::<RState, Error>(s4));
    lemma_render_unfold(e3, s3, s4);
    let e4 = e3.drop_first();
    let s5 = RState {
        in_para: false,
        para: Seq::empty(),
        out: s4.out + wrap_spec(s4.para, 1) + seq!['\n'],
        ..s4
    };
    assert(step(e4[0], if e4.len() >= 2 { Some(e4[1]) } else { None }, s4)
        == Ok::<RState, Error>(s5));
    lemma_render_unfold(e4, s4, s5);
    assert(s4.para =~= outer);
    let e5 = e4.drop_first();
    let s6 = RState { depth: 2, counter: None, ..s5 };
    assert(step(e5[0], if e5.len() >= 2 { Some(e5[1]) } else { None }, s5)
        == Ok::<RState, Error>(s6));
    lemma_render_unfold(e5, s5, s6);
    let e6 = e5.drop_first();
    let s7 = RState { out: s6.out + seq!['-', ' '], ..s6 };
    assert(step(e6[0], if e6.len() >= 2 { Some(e6[1]) } else { None }, s6)
        == Ok::<RState, Error>(s7));
    lemma_render_unfold(e6, s6, s7);
    let e7 = e6.drop_first();
    let s8 = RState { in_para: true, out: s7.out + seq!['\n'], ..s7 };
    assert(step(e7[0], if e7.len() >= 2 { Some(e7[1]) } else { None }, s7)
        == Ok::<RState, Error>(s8));
    lemma_render_unfold(e7, s7, s8);
    let e8 = e7.drop_first();
    let s9 = RState { para: s8.para + inner, ..s8 };
    assert(step(e8[0], if e8.len() >= 2 { Some(e8[1]) } else { None }, s8)
        == Ok::<RState, Error>(s9));
    lemma_render_unfold(e8, s8, s9);
    let e9 = e8.drop_first();
    let s10 = RState {
        in_para: false,
        para: Seq::empty(),
        out: s9.out + wrap_spec(s9.para, 2) + seq!['\n'],
        ..s9
    };
    assert(step(e9[0], if e9.len() >= 2 { Some(e9[1]) } else { None }, s9)
        == Ok::<RState, Error>(s10));
    lemma_render_unfold(e9, s9, s10);
    assert(s9.para =~= inner);
    let e10 = e9.drop_first();
    // end of the inner item: the next event ends the inner list, so no
    // newline is emitted
    assert(e10[1] == EventS::End(BlockS::List(None)));
    assert(step(e10[0], if e10.len() >= 2 { Some(e10[1]) } else { None }, s10)
        == Ok::<RState, Error>(s10));
    lemma_render_unfold(e10, s10, s10);
    let e11 = e10.drop_first();
    // the inner list closes at depth two: no blank line
    let s11 = RState { depth: 1, counter: None, ..s10 };
    assert(step(e11[0], if e11.len() >= 2 { Some(e11[1]) } else { None }, s10)
        == Ok::<RState, Error>(s11));
    lemma_render_unfold(e11, s10, s11);
    let e12 = e11.drop_first();
    // end of the outer item: the next event ends the outer list
    assert(e12[1] == EventS::End(BlockS::List(None)));
    assert(step(e12[0], if e12.len() >= 2 { Some(e12[1]) } else { None }, s11)
        == Ok::<RState, Error>(s11));
    lemma_render_unfold(e12, s11, s11);
    let e13 = e12.drop_first();
    // the outer list closes at depth one: exactly one blank line
    let s12 = RState { depth: 0, counter: None, out: s11.out + seq!['\n'], ..s11 };
    assert(step(e13[0], if e13.len() >= 2 { Some(e13[1]) } else { None }, s11)
        == Ok::<RState, Error>(s12));
    lemma_render_unfold(e13, s11, s12);
    assert(e13.drop_first() =~= Seq::<EventS>::empty());
    assert(s12.out =~= st.out + seq!['\n', '-', ' ', '\n'] + wrap_spec(outer, 1) + seq![
        '\n',
        '-',
        ' ',
        '\n',
    ] + wrap_spec(inner, 2) + seq!['\n', '\n']);
}


/// Whether a block is one the renderer supports.
pub open spec fn supported_block(b: BlockS) -> bool {
    match b {
        BlockS::Paragraph => true,
        BlockS::Heading(_) => true,
        BlockS::CodeBlock(_) => true,
        BlockS::List(_) => true,
        BlockS::ListItem => true,
        BlockS::Emphasis => true,
        BlockS::Strong => true,
        _ => false,
    }
}

/// Whether an event stream is well formed for the renderer, given whether a
/// paragraph is open and how many lists are: every construct is supported,
/// paragraphs open only when closed and close only when open, the heading
/// and code-block markers stand outside paragraphs, the inline markers and
/// code spans stand inside one, and list ends match list starts.
pub open spec fn wf_events(events: Seq<EventS>, in_para: bool, depth: int) -> bool
    decreases events.len(),
{
    if events.len() == 0 {
        true
    } else {
        let rest = events.drop_first();
        match events[0] {
            EventS::Start(b) => match b {
                BlockS::Paragraph => !in_para && wf_events(rest, true, depth),
                BlockS::Heading(_) => !in_para && wf_events(rest, in_para, depth),
                BlockS::CodeBlock(_) => !in_para && wf_events(rest, in_para, depth),
                BlockS::List(_) => wf_events(rest, in_para, depth + 1),
                BlockS::ListItem => wf_events(rest, in_para, depth),
                BlockS::Emphasis => in_para && wf_events(rest, in_para, depth),
                BlockS::Strong => in_para && wf_events(rest, in_para, depth),
                _ => false,
            },
            EventS::End(b) => match b {
                BlockS::Paragraph => in_para && wf_events(rest, false, depth),
                BlockS::Heading(_) => !in_para && wf_events(rest, in_para, depth),
                BlockS::CodeBlock(_) => !in_para && wf_events(rest, in_para, depth),
                BlockS::List(_) => depth > 0 && wf_events(rest, in_para, depth - 1),
                BlockS::ListItem => wf_events(rest, in_para, depth),
                BlockS::Emphasis => in_para && wf_events(rest, in_para, depth),
                BlockS::Strong => in_para && wf_events(rest, in_para, depth),
                _ => false,
            },
            EventS::Text(_) => wf_events(rest, in_para, depth),
            EventS::Code(_) => in_para && wf_events(rest, in_para, depth),
            EventS::SoftBreak => wf_events(rest, in_para, depth),
            EventS::HardBreak => false,
        }
    }
}

/// The renderer never fails on a well-formed stream of supported
/// constructs: rendering such a stream always produces a canonical text.
pub proof fn lemma_render_total(events: Seq<EventS>, st: RState)
    requires
        wf_events(events, st.in_para, st.depth),
    ensures
        render_events(events, st) is Ok,
    decreases events.len(),
{
    if events.len() > 0 {
        let peek = if events.len() >= 2 {
            Some(events[1])
        } else {
            None
        };
        match step(events[0], peek, st) {
            Ok(st2) => {
                assert(st2.in_para == (match events[0] {
                    EventS::Start(BlockS::Paragraph) => true,
                    EventS::End(BlockS::Paragraph) => false,
                    _ => st.in_para,
                }));
                assert(st2.depth == (match events[0] {
                    EventS::Start(BlockS::List(_)) => st.depth + 1,
                    EventS::End(BlockS::List(_)) => st.depth - 1,
                    _ => st.depth,
                }));
                lemma_render_total(events.drop_first(), st2);
            },
            Err(_) => {
                assert(false);
            },
        }
    }
}

} // verus!
