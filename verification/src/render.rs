use vstd::prelude::*;

use crate::error::Error;
use crate::event::{Block, BlockS, Event, EventS};
use crate::wrap::{push_all, wrap_spec, wrap_text};

verus! {

/// The decimal digits of a non-negative integer, most significant first.
pub open spec fn dec_digits(n: int) -> Seq<char>
    decreases n,
{
    if n < 10 {
        seq![((48 + n) as u8) as char]
    } else {
        dec_digits(n / 10).push(((48 + n % 10) as u8) as char)
    }
}

/// Appends the decimal rendering of `n` to `out`.
pub fn push_decimal(out: &mut Vec<char>, n: u128)
    ensures
        final(out)@ == old(out)@ + dec_digits(n as int),
    decreases n,
{
    if n >= 10 {
        push_decimal(out, n / 10);
    }
    let d: u8 = (n % 10) as u8;
    out.push((48 + d) as char);
    proof {
        if n >= 10 {
            assert(out@ =~= old(out)@ + dec_digits(n as int));
        } else {
            assert(out@ =~= old(out)@ + dec_digits(n as int));
        }
    }
}

/// `level` repetitions of the heading marker character.
pub open spec fn hashes(level: int) -> Seq<char> {
    if level <= 0 {
        Seq::empty()
    } else {
        Seq::new(level as nat, |i: int| '#')
    }
}

/// The renderer's working state: whether a paragraph is open, the
/// accumulated paragraph text, the list nesting depth, the running counter
/// of the innermost ordered list, and the output built so far.
#[verifier::ext_equal]
pub struct RState {
    pub in_para: bool,
    pub para: Seq<char>,
    pub depth: int,
    pub counter: Option<int>,
    pub out: Seq<char>,
}

/// The renderer's starting state: outside any paragraph or list, with empty
/// output.
pub open spec fn init_state() -> RState {
    RState { in_para: false, para: Seq::empty(), depth: 0, counter: None, out: Seq::empty() }
}

/// One transition of the rendering state machine: the effect of a single
/// event, given one event of lookahead (used only to suppress the blank
/// line between the last item of a list and the list's end).
pub open spec fn step(e: EventS, peek: Option<EventS>, st: RState) -> Result<RState, Error> {
    match e {
        EventS::Start(b) => match b {
            BlockS::Paragraph => if st.in_para {
                Err(Error::MalformedEventStream)
            } else {
                Ok(RState { in_para: true, out: st.out + seq!['\n'], ..st })
            },
            BlockS::Heading(level) => if st.in_para {
                Err(Error::MalformedEventStream)
            } else {
                Ok(RState { out: st.out + seq!['\n'] + hashes(level as int) + seq![' '], ..st })
            },
            BlockS::CodeBlock(lang) => if st.in_para {
                Err(Error::MalformedEventStream)
            } else {
                Ok(RState { out: st.out + seq!['\n', '`', '`', '`'] + lang + seq!['\n'], ..st })
            },
            BlockS::List(start) => Ok(
                RState {
                    depth: st.depth + 1,
                    counter: match start {
                        Some(n) => Some(n as int),
                        None => None,
                    },
                    out: if st.depth == 0 {
                        st.out + seq!['\n']
                    } else {
                        st.out
                    },
                    ..st
                },
            ),
            BlockS::ListItem => match st.counter {
                Some(c) => Ok(
                    RState {
                        counter: Some(c + 1),
                        out: st.out + dec_digits(c) + seq!['.', ' '],
                        ..st
                    },
                ),
                None => Ok(RState { out: st.out + seq!['-', ' '], ..st }),
            },
            BlockS::Emphasis => if !st.in_para {
                Err(Error::MalformedEventStream)
            } else {
                Ok(RState { para: st.para + seq!['*'], ..st })
            },
            BlockS::Strong => if !st.in_para {
                Err(Error::MalformedEventStream)
            } else {
                Ok(RState { para: st.para + seq!['*', '*'], ..st })
            },
            _ => Err(Error::UnsupportedConstruct),
        },
        EventS::End(b) => match b {
            BlockS::Paragraph => if !st.in_para {
                Err(Error::MalformedEventStream)
            } else {
                Ok(
                    RState {
                        in_para: false,
                        para: Seq::empty(),
                        out: st.out + wrap_spec(st.para, st.depth) + seq!['\n'],
                        ..st
                    },
                )
            },
            BlockS::Heading(_) => if st.in_para {
                Err(Error::MalformedEventStream)
            } else {
                Ok(RState { out: st.out + seq!['\n'], ..st })
            },
            BlockS::CodeBlock(_) => if st.in_para {
                Err(Error::MalformedEventStream)
            } else {
                Ok(RState { out: st.out + seq!['`', '`', '`', '\n'], ..st })
            },
            BlockS::List(_) => if st.depth <= 0 {
                Err(Error::MalformedEventStream)
            } else {
                Ok(
                    RState {
                        depth: st.depth - 1,
                        counter: None,
                        out: if st.depth == 1 {
                            st.out + seq!['\n']
                        } else {
                            st.out
                        },
                        ..st
                    },
                )
            },
            BlockS::ListItem => if peek matches Some(EventS::End(BlockS::List(_))) {
                Ok(st)
            } else {
                Ok(RState { out: st.out + seq!['\n'], ..st })
            },
            BlockS::Emphasis => if !st.in_para {
                Err(Error::MalformedEventStream)
            } else {
                Ok(RState { para: st.para + seq!['*'], ..st })
            },
            BlockS::Strong => if !st.in_para {
                Err(Error::MalformedEventStream)
            } else {
                Ok(RState { para: st.para + seq!['*', '*'], ..st })
            },
            _ => Err(Error::UnsupportedConstruct),
        },
        EventS::Text(t) => if st.in_para {
            Ok(RState { para: st.para + t, ..st })
        } else {
            Ok(RState { out: st.out + t, ..st })
        },
        EventS::Code(t) => if !st.in_para {
            Err(Error::MalformedEventStream)
        } else {
            Ok(RState { para: st.para + seq!['`'] + t + seq!['`'], ..st })
        },
        EventS::SoftBreak => if st.in_para {
            Ok(RState { para: st.para + seq![' '], ..st })
        } else {
            Ok(st)
        },
        EventS::HardBreak => Err(Error::UnsupportedConstruct),
    }
}

/// The rendering of an event sequence started in state `st`: the output
/// accumulated once every event has been consumed, or the first error.
pub open spec fn render_events(events: Seq<EventS>, st: RState) -> Result<Seq<char>, Error>
    decreases events.len(),
{
    if events.len() == 0 {
        Ok(st.out)
    } else {
        let peek = if events.len() >= 2 {
            Some(events[1])
        } else {
            None
        };
        match step(events[0], peek, st) {
            Ok(st2) => render_events(events.drop_first(), st2),
            Err(e) => Err(e),
        }
    }
}

/// The canonical rendering of a whole event stream.
pub open spec fn render_spec(events: Seq<EventS>) -> Result<Seq<char>, Error> {
    render_events(events, init_state())
}

/// The renderer's data-model invariant: the paragraph buffer is non-empty
/// only while a paragraph is open, and the nesting depth is never negative.
pub open spec fn state_inv(st: RState) -> bool {
    &&& (!st.in_para ==> st.para.len() == 0)
    &&& st.depth >= 0
}

/// The starting state satisfies the renderer's invariant, and every
/// successful step preserves it.
pub proof fn lemma_step_preserves_invariant(e: EventS, peek: Option<EventS>, st: RState)
    requires
        state_inv(st),
    ensures
        state_inv(init_state()),
        step(e, peek, st) matches Ok(st2) ==> state_inv(st2),
{
}

/// Rendering fails only with the unsupported-construct or malformed-stream
/// error, never with a document-store error.
pub proof fn lemma_render_err_kind(events: Seq<EventS>, st: RState)
    ensures
        render_events(events, st) matches Err(e) ==> (e == Error::UnsupportedConstruct || e
            == Error::MalformedEventStream),
    decreases events.len(),
{
    if events.len() > 0 {
        let peek = if events.len() >= 2 {
            Some(events[1])
        } else {
            None
        };
        match step(events[0], peek, st) {
            Ok(st2) => {
                lemma_render_err_kind(events.drop_first(), st2);
            },
            Err(e) => {
                assert(e == Error::UnsupportedConstruct || e == Error::MalformedEventStream);
            },
        }
    }
}

/// The executable renderer's state.
pub struct Renderer {
    pub in_para: bool,
    pub para: Vec<char>,
    pub depth: usize,
    pub counter: Option<u128>,
    pub out: Vec<char>,
}

impl View for Renderer {
    type V = RState;

    open spec fn view(&self) -> RState {
        RState {
            in_para: self.in_para,
            para: self.para@,
            depth: self.depth as int,
            counter: match self.counter {
                Some(c) => Some(c as int),
                None => None,
            },
            out: self.out@,
        }
    }
}

impl Renderer {
    /// A renderer in the starting state.
    pub fn new() -> (r: Renderer)
        ensures
            r@ == init_state(),
    {
        let r = Renderer {
            in_para: false,
            para: Vec::new(),
            depth: 0,
            counter: None,
            out: Vec::new(),
        };
        proof {
            assert(r@ =~= init_state());
        }
        r
    }

    /// Performs one transition of the state machine, exactly as `step`
    /// describes. `peek_end_list` must say whether the lookahead event ends
    /// a list.
    fn do_step(&mut self, e: &Event, Ghost(peek): Ghost<Option<EventS>>, peek_end_list: bool) -> (r:
        Result<(), Error>)
        requires
            peek_end_list == (peek matches Some(EventS::End(BlockS::List(_)))),
            old(self).depth < usize::MAX,
            (old(self)@.counter matches Some(c) ==> c < u128::MAX - 1),
        ensures
            (match r {
                Ok(()) => step(e.deep_view(), peek, old(self)@) == Ok::<RState, Error>(
                    final(self)@,
                ),
                Err(er) => step(e.deep_view(), peek, old(self)@) == Err::<RState, Error>(er)
                    && final(self)@ == old(self)@,
            }),
            final(self)@.depth <= old(self)@.depth + 1,
            (final(self)@.counter matches Some(c) ==> (old(self)@.counter matches Some(c0) && (c
                == c0 || c == c0 + 1)) || c <= u64::MAX as int),
    {
        match e {
            Event::Start(b) => match b {
                Block::Paragraph => {
                    if self.in_para {
                        return Err(Error::MalformedEventStream);
                    }
                    self.in_para = true;
                    self.out.push('\n');
                    proof {
                        assert(step(e.deep_view(), peek, old(self)@) == Ok::<RState, Error>(
                            RState { in_para: true, out: old(self)@.out + seq!['\n'], ..old(self)@ },
                        ));
                        assert(self@ =~= RState {
                            in_para: true,
                            out: old(self)@.out + seq!['\n'],
                            ..old(self)@
                        });
                    }
                    Ok(())
                },
                Block::Heading(level) => {
                    if self.in_para {
                        return Err(Error::MalformedEventStream);
                    }
                    self.out.push('\n');
                    let lv: u8 = *level;
                    let mut k: u8 = 0;
                    while k < lv
                        invariant
                            k <= lv,
                            self.in_para == old(self).in_para,
                            self.para == old(self).para,
                            self.depth == old(self).depth,
                            self.counter == old(self).counter,
                            self.out@ =~= old(self).out@ + seq!['\n'] + hashes(k as int),
                        decreases lv - k,
                    {
                        self.out.push('#');
                        proof {
                            assert(self.out@ =~= old(self).out@ + seq!['\n'] + hashes(
                                k as int + 1,
                            ));
                        }
                        k = k + 1;
                    }
                    self.out.push(' ');
                    proof {
                        assert(self@ =~= RState {
                            out: old(self)@.out + seq!['\n'] + hashes(lv as int) + seq![' '],
                            ..old(self)@
                        });
                    }
                    Ok(())
                },
                Block::CodeBlock(lang) => {
                    if self.in_para {
                        return Err(Error::MalformedEventStream);
                    }
                    self.out.push('\n');
                    self.out.push('`');
                    self.out.push('`');
                    self.out.push('`');
                    push_all(&mut self.out, lang);
                    self.out.push('\n');
                    proof {
                        assert(self@ =~= RState {
                            out: old(self)@.out + seq!['\n', '`', '`', '`'] + lang@ + seq!['\n'],
                            ..old(self)@
                        });
                    }
                    Ok(())
                },
                Block::List(start) => {
                    if self.depth == 0 {
                        self.out.push('\n');
                    }
                    self.depth = self.depth + 1;
                    self.counter = match start {
                        Some(n) => Some(*n as u128),
                        None => None,
                    };
                    proof {
                        assert(self@ =~= (match step(e.deep_view(), peek, old(self)@) {
                            Ok(st2) => st2,
                            Err(_) => self@,
                        }));
                    }
                    Ok(())
                },
                Block::ListItem => {
                    match self.counter {
                        Some(c) => {
                            push_decimal(&mut self.out, c);
                            self.out.push('.');
                            self.out.push(' ');
                            self.counter = Some(c + 1);
                            proof {
                                assert(self@ =~= RState {
                                    counter: Some(c as int + 1),
                                    out: old(self)@.out + dec_digits(c as int) + seq!['.', ' '],
                                    ..old(self)@
                                });
                            }
                        },
                        None => {
                            self.out.push('-');
                            self.out.push(' ');
                            proof {
                                assert(self@ =~= RState {
                                    out: old(self)@.out + seq!['-', ' '],
                                    ..old(self)@
                                });
                            }
                        },
                    }
                    Ok(())
                },
                Block::Emphasis => {
                    if !self.in_para {
                        return Err(Error::MalformedEventStream);
                    }
                    self.para.push('*');
                    proof {
                        assert(self@ =~= RState {
                            para: old(self)@.para + seq!['*'],
                            ..old(self)@
                        });
                    }
                    Ok(())
                },
                Block::Strong => {
                    if !self.in_para {
                        return Err(Error::MalformedEventStream);
                    }
                    self.para.push('*');
                    self.para.push('*');
                    proof {
                        assert(self@ =~= RState {
                            para: old(self)@.para + seq!['*', '*'],
                            ..old(self)@
                        });
                    }
                    Ok(())
                },
                _ => Err(Error::UnsupportedConstruct),
            },
            Event::End(b) => match b {
                Block::Paragraph => {
                    if !self.in_para {
                        return Err(Error::MalformedEventStream);
                    }
                    self.in_para = false;
                    let wrapped = wrap_text(&self.para, self.depth);
                    push_all(&mut self.out, &wrapped);
                    self.out.push('\n');
                    self.para = Vec::new();
                    proof {
                        assert(self@ =~= RState {
                            in_para: false,
                            para: Seq::empty(),
                            out: old(self)@.out + wrap_spec(old(self)@.para, old(self)@.depth)
                                + seq!['\n'],
                            ..old(self)@
                        });
                    }
                    Ok(())
                },
                Block::Heading(_) => {
                    if self.in_para {
                        return Err(Error::MalformedEventStream);
                    }
                    self.out.push('\n');
                    proof {
                        assert(self@ =~= RState {
                            out: old(self)@.out + seq!['\n'],
                            ..old(self)@
                        });
                    }
                    Ok(())
                },
                Block::CodeBlock(_) => {
                    if self.in_para {
                        return Err(Error::MalformedEventStream);
                    }
                    self.out.push('`');
                    self.out.push('`');
                    self.out.push('`');
                    self.out.push('\n');
                    proof {
                        assert(self@ =~= RState {
                            out: old(self)@.out + seq!['`', '`', '`', '\n'],
                            ..old(self)@
                        });
                    }
                    Ok(())
                },
                Block::List(_) => {
                    if self.depth == 0 {
                        return Err(Error::MalformedEventStream);
                    }
                    self.depth = self.depth - 1;
                    self.counter = None;
                    if self.depth == 0 {
                        self.out.push('\n');
                    }
                    proof {
                        assert(self@ =~= (match step(e.deep_view(), peek, old(self)@) {
                            Ok(st2) => st2,
                            Err(_) => self@,
                        }));
                    }
                    Ok(())
                },
                Block::ListItem => {
                    if !peek_end_list {
                        self.out.push('\n');
                        proof {
                            assert(self@ =~= RState {
                                out: old(self)@.out + seq!['\n'],
                                ..old(self)@
                            });
                        }
                    } else {
                        proof {
                            assert(self@ =~= old(self)@);
                        }
                    }
                    Ok(())
                },
                Block::Emphasis => {
                    if !self.in_para {
                        return Err(Error::MalformedEventStream);
                    }
                    self.para.push('*');
                    proof {
                        assert(self@ =~= RState {
                            para: old(self)@.para + seq!['*'],
                            ..old(self)@
                        });
                    }
                    Ok(())
                },
                Block::Strong => {
                    if !self.in_para {
                        return Err(Error::MalformedEventStream);
                    }
                    self.para.push('*');
                    self.para.push('*');
                    proof {
                        assert(self@ =~= RState {
                            para: old(self)@.para + seq!['*', '*'],
                            ..old(self)@
                        });
                    }
                    Ok(())
                },
                _ => Err(Error::UnsupportedConstruct),
            },
            Event::Text(t) => {
                if self.in_para {
                    push_all(&mut self.para, t);
                    proof {
                        assert(self@ =~= RState { para: old(self)@.para + t@, ..old(self)@ });
                    }
                } else {
                    push_all(&mut self.out, t);
                    proof {
                        assert(self@ =~= RState { out: old(self)@.out + t@, ..old(self)@ });
                    }
                }
                Ok(())
            },
            Event::Code(t) => {
                if !self.in_para {
                    return Err(Error::MalformedEventStream);
                }
                self.para.push('`');
                push_all(&mut self.para, t);
                self.para.push('`');
                proof {
                    assert(self@ =~= RState {
                        para: old(self)@.para + seq!['`'] + t@ + seq!['`'],
                        ..old(self)@
                    });
                }
                Ok(())
            },
            Event::SoftBreak => {
                if self.in_para {
                    self.para.push(' ');
                    proof {
                        assert(self@ =~= RState {
                            para: old(self)@.para + seq![' '],
                            ..old(self)@
                        });
                    }
                } else {
                    proof {
                        assert(self@ =~= old(self)@);
                    }
                }
                Ok(())
            },
            Event::HardBreak => Err(Error::UnsupportedConstruct),
        }
    }
}

/// Renders a full event stream into its canonical text, exactly as
/// `render_spec` states; the first unsupported construct or invariant
/// violation in the stream is reported as an error instead.
pub fn render(events: &Vec<Event>) -> (r: Result<Vec<char>, Error>)
    ensures
        (match r {
            Ok(v) => render_spec(events.deep_view()) == Ok::<Seq<char>, Error>(v@),
            Err(e) => render_spec(events.deep_view()) == Err::<Seq<char>, Error>(e),
        }),
{
    let ghost evs = events.deep_view();
    let mut rd = Renderer::new();
    proof {
        assert(evs.subrange(0, evs.len() as int) =~= evs);
    }
    let mut i: usize = 0;
    while i < events.len()
        invariant
            0 <= i <= events@.len(),
            evs == events.deep_view(),
            evs.len() == events@.len(),
            rd@.depth <= i,
            (rd@.counter matches Some(c) ==> c <= u64::MAX as int + i),
            render_spec(evs) == render_events(evs.subrange(i as int, evs.len() as int), rd@),
        decreases events@.len() - i,
    {
        let ghost suffix = evs.subrange(i as int, evs.len() as int);
        let ghost peek = if i + 1 < events@.len() {
            Some(evs[i as int + 1])
        } else {
            None
        };
        proof {
            assert(suffix[0] == evs[i as int]);
            assert(evs[i as int] == events@[i as int].deep_view());
            if i + 1 < events@.len() {
                assert(suffix[1] == evs[i as int + 1]);
            }
            assert(suffix.drop_first() =~= evs.subrange(i as int + 1, evs.len() as int));
        }
        let peek_end_list: bool = if i + 1 < events.len() {
            match &events[i + 1] {
                Event::End(b) => match b {
                    Block::List(_) => true,
                    _ => false,
                },
                _ => false,
            }
        } else {
            false
        };
        proof {
            if i + 1 < events@.len() {
                assert(evs[i as int + 1] == events@[i as int + 1].deep_view());
            }
        }
        let e = &events[i];
        match rd.do_step(e, Ghost(peek), peek_end_list) {
            Ok(()) => {},
            Err(er) => {
                proof {
                    assert(render_events(suffix, rd@) == Err::<Seq<char>, Error>(er));
                }
                return Err(er);
            },
        }
        i = i + 1;
    }
    proof {
        assert(evs.subrange(i as int, evs.len() as int) =~= Seq::<EventS>::empty());
        assert(render_events(Seq::<EventS>::empty(), rd@) == Ok::<Seq<char>, Error>(rd@.out));
    }
    Ok(rd.out)
}

} // verus!
