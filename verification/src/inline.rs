//! Inline-markup resolver.
//!
//! The resolver consumes the classified token stream that an external lexer
//! produces (symbols, delimiter open/close markers, and backtick/dollar runs,
//! each with its byte length) and turns it into a flat, properly nested
//! sequence of `Enter`/`Exit`/`Atom`/`Node` events, using a single pass over
//! an explicit stack of open delimiters.
//!
//! Malformed markup is never rejected: an unmatched closer decays to plain
//! text, an unmatched opener is reported as an `Unclosed` container, and an
//! unterminated verbatim run extends to the end of the input.  Adjacent
//! plain-text events are coalesced.

use crate::span::Span;
use vstd::assert_seqs_equal;
use vstd::prelude::*;

verus! {

/// Single-span, non-nesting inline marks.
#[derive(Debug, Clone, Copy, PartialEq, Eq, Structural)]
pub enum Atom {
    Softbreak,
    Hardbreak,
    Escape,
    Nbsp,
    OpenMarker,
    Ellipses,
    ImageMarker,
    EmDash,
    EnDash,
    Lt,
    Gt,
    Ampersand,
    Quote,
}

/// Text-bearing leaf constructs.
#[derive(Debug, Clone, Copy, PartialEq, Eq, Structural)]
pub enum Node {
    Str,
    Url,
    ImageSource,
    LinkReference,
    FootnoteReference,
    Verbatim,
    RawFormat,
    InlineMath,
    DisplayMath,
}

/// Nestable inline constructs, opened by an `Enter` and closed by an `Exit`.
#[derive(Debug, Clone, Copy, PartialEq, Eq, Structural)]
pub enum Container {
    Span,
    Attributes,
    Subscript,
    Superscript,
    Insert,
    Delete,
    Emphasis,
    Strong,
    Mark,
    SingleQuoted,
    DoubleQuoted,
}

/// Whether an `Enter` was eventually matched by an `Exit` (`Closed`) or not.
#[derive(Debug, Clone, Copy, PartialEq, Eq, Structural)]
pub enum OpenerState {
    Unclosed,
    Closed,
}

#[derive(Debug, Clone, Copy, PartialEq, Eq, Structural)]
pub enum EventKind {
    Enter(Container, OpenerState),
    Exit(Container),
    Atom(Atom),
    Node(Node),
}

/// One event of the inline stream, tagged with its source span.
#[derive(Debug, Clone, Copy, PartialEq, Eq, Structural)]
pub struct Event {
    pub kind: EventKind,
    pub span: Span,
}

/// Which side of a container a delimiter token can stand for.
#[derive(Debug, Clone, Copy, PartialEq, Eq, Structural)]
pub enum Dir {
    Open,
    Close,
    Both,
}

/// Symbol tokens of the lexer's vocabulary.
#[derive(Debug, Clone, Copy, PartialEq, Eq, Structural)]
pub enum Symbol {
    Asterisk,
    Caret,
    Lt,
    Gt,
    Quote1,
    Quote2,
    Tilde,
    Underscore,
}

/// Bracket-like delimiter tokens of the lexer's vocabulary.
#[derive(Debug, Clone, Copy, PartialEq, Eq, Structural)]
pub enum Delimiter {
    Bracket,
    BraceAsterisk,
    BraceCaret,
    BraceEqual,
    BraceHyphen,
    BracePlus,
    BraceTilde,
    BraceUnderscore,
}

/// Kinds of homogeneous character runs the lexer reports with a length.
#[derive(Debug, Clone, Copy, PartialEq, Eq, Structural)]
pub enum RunKind {
    Backtick,
    Dollar,
}

/// A classified token: what the lexer saw, and how many source bytes it
/// covers.
#[derive(Debug, Clone, Copy, PartialEq, Eq, Structural)]
pub enum TokenKind {
    Text,
    Escape,
    Nbsp,
    Sym(Symbol),
    Open(Delimiter),
    Close(Delimiter),
    Run(RunKind),
}

#[derive(Debug, Clone, Copy, PartialEq, Eq, Structural)]
pub struct Token {
    pub kind: TokenKind,
    pub len: usize,
}

/// The container (and direction) a delimiter token stands for, if any.
pub open spec fn spec_container_of(k: TokenKind) -> Option<(Container, Dir)> {
    match k {
        TokenKind::Sym(Symbol::Asterisk) => Option::Some((Container::Strong, Dir::Both)),
        TokenKind::Sym(Symbol::Underscore) => Option::Some((Container::Emphasis, Dir::Both)),
        TokenKind::Sym(Symbol::Caret) => Option::Some((Container::Superscript, Dir::Both)),
        TokenKind::Sym(Symbol::Tilde) => Option::Some((Container::Subscript, Dir::Both)),
        TokenKind::Sym(Symbol::Quote1) => Option::Some((Container::SingleQuoted, Dir::Both)),
        TokenKind::Sym(Symbol::Quote2) => Option::Some((Container::DoubleQuoted, Dir::Both)),
        TokenKind::Open(Delimiter::Bracket) => Option::Some((Container::Span, Dir::Open)),
        TokenKind::Close(Delimiter::Bracket) => Option::Some((Container::Span, Dir::Close)),
        TokenKind::Open(Delimiter::BraceAsterisk) => Option::Some((Container::Strong, Dir::Open)),
        TokenKind::Close(Delimiter::BraceAsterisk) => Option::Some((Container::Strong, Dir::Close)),
        TokenKind::Open(Delimiter::BraceCaret) => Option::Some((Container::Superscript, Dir::Open)),
        TokenKind::Close(Delimiter::BraceCaret) => Option::Some(
            (Container::Superscript, Dir::Close),
        ),
        TokenKind::Open(Delimiter::BraceEqual) => Option::Some((Container::Mark, Dir::Open)),
        TokenKind::Close(Delimiter::BraceEqual) => Option::Some((Container::Mark, Dir::Close)),
        TokenKind::Open(Delimiter::BraceHyphen) => Option::Some((Container::Delete, Dir::Open)),
        TokenKind::Close(Delimiter::BraceHyphen) => Option::Some((Container::Delete, Dir::Close)),
        TokenKind::Open(Delimiter::BracePlus) => Option::Some((Container::Insert, Dir::Open)),
        TokenKind::Close(Delimiter::BracePlus) => Option::Some((Container::Insert, Dir::Close)),
        TokenKind::Open(Delimiter::BraceTilde) => Option::Some((Container::Subscript, Dir::Open)),
        TokenKind::Close(Delimiter::BraceTilde) => Option::Some((Container::Subscript, Dir::Close)),
        TokenKind::Open(Delimiter::BraceUnderscore) => Option::Some(
            (Container::Emphasis, Dir::Open),
        ),
        TokenKind::Close(Delimiter::BraceUnderscore) => Option::Some(
            (Container::Emphasis, Dir::Close),
        ),
        _ => Option::None,
    }
}

/// The atom a token stands for, if any.  Only consulted for tokens that are
/// neither runs nor delimiters.
pub open spec fn spec_atom_of(k: TokenKind) -> Option<Atom> {
    match k {
        TokenKind::Escape => Option::Some(Atom::Escape),
        TokenKind::Nbsp => Option::Some(Atom::Nbsp),
        TokenKind::Sym(Symbol::Lt) => Option::Some(Atom::Lt),
        TokenKind::Sym(Symbol::Gt) => Option::Some(Atom::Gt),
        TokenKind::Sym(Symbol::Quote2) => Option::Some(Atom::Quote),
        _ => Option::None,
    }
}

/// Total byte length of a token sequence.
pub open spec fn sum_lens(tokens: Seq<Token>) -> int
    decreases tokens.len(),
{
    if tokens.len() == 0 {
        0
    } else {
        sum_lens(tokens.drop_last()) + tokens.last().len
    }
}

/// The rightmost opener of container `c`, or `-1` when none is open.
pub open spec fn find_opener(openers: Seq<(Container, usize)>, c: Container) -> int
    decreases openers.len(),
{
    if openers.len() == 0 {
        -1int
    } else if openers.last().0 == c {
        openers.len() - 1
    } else {
        find_opener(openers.drop_last(), c)
    }
}

/// A non-negative `find_opener` result points at an opener of `c`.
proof fn lemma_find_opener_props(openers: Seq<(Container, usize)>, c: Container)
    ensures
        ({
            let r = find_opener(openers, c);
            r >= 0 ==> r < openers.len() && openers[r].0 == c
        }),
    decreases openers.len(),
{
    if openers.len() > 0 && !(openers.last().0 == c) {
        lemma_find_opener_props(openers.drop_last(), c);
    }
}

/// What the resolver is in the middle of reading.
#[derive(Debug, Clone, Copy, PartialEq, Eq, Structural)]
pub enum RMode {
    /// Ordinary token-by-token resolution.
    Normal,
    /// A dollar run of length one or two was just read (its span, and
    /// whether it asks for display math); a following backtick run opens a
    /// math verbatim.
    Math(usize, usize, bool),
    /// Inside a verbatim run: the node kind to emit, the opening run length
    /// a closer must equal, and the byte offset where the interior began.
    Verb(Node, usize, usize),
}

/// The full resolver state: events emitted so far, the stack of open
/// delimiters (container and index of its buffered `Enter` event), the byte
/// offset of consumed input, and the pending mode.
pub struct RState {
    pub events: Seq<Event>,
    pub openers: Seq<(Container, usize)>,
    pub offset: usize,
    pub mode: RMode,
}

/// Addition on byte offsets; callers keep the sums within `usize`.
pub open spec fn add_u(a: usize, b: usize) -> usize {
    (a + b) as usize
}

pub open spec fn str_event(sp: Span) -> Event {
    Event { kind: EventKind::Node(Node::Str), span: sp }
}

/// Append an event, coalescing adjacent plain-text runs: a `Str` event that
/// begins exactly where a preceding `Str` event ended extends it in place.
pub open spec fn push_merged(evs: Seq<Event>, ev: Event) -> Seq<Event> {
    if evs.len() > 0 && evs.last().kind == EventKind::Node(Node::Str) && ev.kind
        == EventKind::Node(Node::Str) && evs.last().span.end_s() == ev.span.start_s() {
        evs.update(
            evs.len() - 1,
            Event {
                kind: EventKind::Node(Node::Str),
                span: Span { start: evs.last().span.start, end: ev.span.end },
            },
        )
    } else {
        evs.push(ev)
    }
}

pub open spec fn init_state() -> RState {
    RState { events: Seq::empty(), openers: Seq::empty(), offset: 0, mode: RMode::Normal }
}

/// One token handled in `Normal` mode.
pub open spec fn step_normal(st: RState, t: Token) -> RState {
    let start = st.offset;
    let end = add_u(st.offset, t.len);
    let sp = Span { start, end };
    match t.kind {
        TokenKind::Run(RunKind::Backtick) => RState {
            events: st.events,
            openers: st.openers,
            offset: end,
            mode: RMode::Verb(Node::Verbatim, t.len, end),
        },
        TokenKind::Run(RunKind::Dollar) => if t.len <= 2 {
            RState {
                events: st.events,
                openers: st.openers,
                offset: end,
                mode: RMode::Math(start, end, t.len == 2),
            }
        } else {
            RState {
                events: push_merged(st.events, str_event(sp)),
                openers: st.openers,
                offset: end,
                mode: RMode::Normal,
            }
        },
        _ => match spec_container_of(t.kind) {
            Option::Some((c, dir)) => {
                let oi = find_opener(st.openers, c);
                if !(dir is Open) && oi >= 0 {
                    // close the rightmost matching opener: its buffered
                    // `Enter` turns `Closed`, openers stacked above it are
                    // abandoned, and an `Exit` is emitted
                    let e = st.openers[oi].1 as int;
                    RState {
                        events: st.events.update(
                            e,
                            Event {
                                kind: EventKind::Enter(c, OpenerState::Closed),
                                span: st.events[e].span,
                            },
                        ).push(Event { kind: EventKind::Exit(c), span: sp }),
                        openers: st.openers.take(oi),
                        offset: end,
                        mode: RMode::Normal,
                    }
                } else if dir is Close {
                    // a pure closer with nothing to close decays to text
                    RState {
                        events: push_merged(st.events, str_event(sp)),
                        openers: st.openers,
                        offset: end,
                        mode: RMode::Normal,
                    }
                } else {
                    RState {
                        events: st.events.push(
                            Event { kind: EventKind::Enter(c, OpenerState::Unclosed), span: sp },
                        ),
                        openers: st.openers.push((c, st.events.len() as usize)),
                        offset: end,
                        mode: RMode::Normal,
                    }
                }
            },
            Option::None => match spec_atom_of(t.kind) {
                Option::Some(a) => RState {
                    events: st.events.push(Event { kind: EventKind::Atom(a), span: sp }),
                    openers: st.openers,
                    offset: end,
                    mode: RMode::Normal,
                },
                Option::None => RState {
                    events: push_merged(st.events, str_event(sp)),
                    openers: st.openers,
                    offset: end,
                    mode: RMode::Normal,
                },
            },
        },
    }
}

/// One token handled in whatever mode the resolver is in.
pub open spec fn step(st: RState, t: Token) -> RState {
    let end = add_u(st.offset, t.len);
    match st.mode {
        RMode::Verb(kind, olen, vstart) => if t.kind == TokenKind::Run(RunKind::Backtick) && t.len
            == olen {
            // a backtick run of exactly the opening length closes the
            // verbatim; the node spans the interior only
            RState {
                events: push_merged(
                    st.events,
                    Event { kind: EventKind::Node(kind), span: Span { start: vstart, end: st.offset } },
                ),
                openers: st.openers,
                offset: end,
                mode: RMode::Normal,
            }
        } else {
            RState { events: st.events, openers: st.openers, offset: end, mode: st.mode }
        },
        RMode::Math(mstart, mend, display) => if t.kind == TokenKind::Run(RunKind::Backtick) {
            RState {
                events: st.events,
                openers: st.openers,
                offset: end,
                mode: RMode::Verb(
                    if display {
                        Node::DisplayMath
                    } else {
                        Node::InlineMath
                    },
                    t.len,
                    end,
                ),
            }
        } else {
            // the dollar run was not math after all: it decays to text and
            // the token is handled normally
            step_normal(
                RState {
                    events: push_merged(st.events, str_event(Span { start: mstart, end: mend })),
                    openers: st.openers,
                    offset: st.offset,
                    mode: RMode::Normal,
                },
                t,
            )
        },
        RMode::Normal => step_normal(st, t),
    }
}

/// The resolver state after the first `n` tokens.
pub open spec fn resolve_fold(tokens: Seq<Token>, n: int) -> RState
    decreases n,
{
    if n <= 0 {
        init_state()
    } else {
        step(resolve_fold(tokens, n - 1), tokens[n - 1])
    }
}

/// Flush whatever the final mode still holds: a pending dollar run decays
/// to text, an unterminated verbatim run extends to the end of the input.
pub open spec fn finalize(st: RState) -> Seq<Event> {
    match st.mode {
        RMode::Normal => st.events,
        RMode::Math(mstart, mend, _display) => push_merged(
            st.events,
            str_event(Span { start: mstart, end: mend }),
        ),
        RMode::Verb(kind, _olen, vstart) => push_merged(
            st.events,
            Event { kind: EventKind::Node(kind), span: Span { start: vstart, end: st.offset } },
        ),
    }
}

/// The event sequence the resolver produces for a token sequence.
pub open spec fn resolve_spec(tokens: Seq<Token>) -> Seq<Event> {
    finalize(resolve_fold(tokens, tokens.len() as int))
}

/// The events in `[i, j)` are properly nested: every `Exit` is matched, in
/// last-in-first-out fashion, by a unique preceding `Enter` of the same
/// container marked `Closed`; an `Enter` marked `Unclosed` has no `Exit` at
/// its depth and acts as a leaf.
pub open spec fn nested(evs: Seq<Event>, i: int, j: int) -> bool
    decreases j - i,
{
    if i >= j {
        i == j
    } else {
        match evs[i].kind {
            EventKind::Exit(_) => false,
            EventKind::Enter(c, state) => {
                if state == OpenerState::Closed {
                    exists|m: int|
                        #![auto]
                        i < m < j && evs[m].kind == EventKind::Exit(c) && nested(evs, i + 1, m)
                            && nested(evs, m + 1, j)
                } else {
                    nested(evs, i + 1, j)
                }
            },
            _ => nested(evs, i + 1, j),
        }
    }
}

/// `nested` only reads the event kinds inside `[i, j)`, so it survives any
/// change of spans, any change outside the window, and any append.
proof fn lemma_nested_frame(evs1: Seq<Event>, evs2: Seq<Event>, i: int, j: int)
    requires
        nested(evs1, i, j),
        0 <= i,
        j <= evs1.len(),
        j <= evs2.len(),
        forall|x: int| i <= x < j ==> #[trigger] evs2[x].kind == evs1[x].kind,
    ensures
        nested(evs2, i, j),
    decreases j - i,
{
    if i < j {
        match evs1[i].kind {
            EventKind::Enter(c, state) => {
                if state == OpenerState::Closed {
                    let m = choose|m: int|
                        #![auto]
                        i < m < j && evs1[m].kind == EventKind::Exit(c) && nested(evs1, i + 1, m)
                            && nested(evs1, m + 1, j);
                    lemma_nested_frame(evs1, evs2, i + 1, m);
                    lemma_nested_frame(evs1, evs2, m + 1, j);
                    assert(i < m < j && evs2[m].kind == EventKind::Exit(c) && nested(evs2, i + 1, m)
                        && nested(evs2, m + 1, j));
                    assert(nested(evs2, i, j));
                } else {
                    lemma_nested_frame(evs1, evs2, i + 1, j);
                }
            },
            EventKind::Exit(_) => {},
            _ => {
                lemma_nested_frame(evs1, evs2, i + 1, j);
            },
        }
    }
}

/// Two adjacent properly nested regions concatenate to one.
proof fn lemma_nested_append(evs: Seq<Event>, i: int, j: int, k: int)
    requires
        nested(evs, i, j),
        nested(evs, j, k),
    ensures
        nested(evs, i, k),
    decreases j - i,
{
    if i < j {
        match evs[i].kind {
            EventKind::Enter(c, state) => {
                if state == OpenerState::Closed {
                    let m = choose|m: int|
                        #![auto]
                        i < m < j && evs[m].kind == EventKind::Exit(c) && nested(evs, i + 1, m)
                            && nested(evs, m + 1, j);
                    lemma_nested_append(evs, m + 1, j, k);
                    assert(i < m < k && evs[m].kind == EventKind::Exit(c) && nested(evs, i + 1, m)
                        && nested(evs, m + 1, k));
                    assert(nested(evs, i, k));
                } else {
                    lemma_nested_append(evs, i + 1, j, k);
                }
            },
            EventKind::Exit(_) => {},
            _ => {
                lemma_nested_append(evs, i + 1, j, k);
            },
        }
    }
}

/// Start of the buffer segment that follows open enter `x - 1`.
pub open spec fn seg_lo(openers: Seq<(Container, usize)>, x: int) -> int {
    if x == 0 {
        0
    } else {
        openers[x - 1].1 + 1
    }
}

/// End of the buffer segment that precedes open enter `x`.
pub open spec fn seg_hi(openers: Seq<(Container, usize)>, n: int, x: int) -> int {
    if x == openers.len() {
        n
    } else {
        openers[x].1 as int
    }
}

/// The resolver's buffer invariant: each opener points at a buffered
/// `Enter(_, Unclosed)` event, openers appear in buffer order, and the
/// events between consecutive openers form properly nested regions.
pub open spec fn segs_ok(evs: Seq<Event>, openers: Seq<(Container, usize)>) -> bool {
    &&& forall|x: int|
        0 <= x < openers.len() ==> (#[trigger] openers[x]).1 < evs.len()
            && evs[openers[x].1 as int].kind == EventKind::Enter(
            openers[x].0,
            OpenerState::Unclosed,
        )
    &&& forall|x: int, y: int|
        0 <= x < y < openers.len() ==> (#[trigger] openers[x]).1 < (#[trigger] openers[y]).1
    &&& forall|x: int|
        0 <= x <= openers.len() ==> nested(
            evs,
            seg_lo(openers, x),
            #[trigger] seg_hi(openers, evs.len() as int, x),
        )
}

/// The byte offset at which the next emitted event will begin.
pub open spec fn mode_start(st: RState) -> int {
    match st.mode {
        RMode::Normal => st.offset as int,
        RMode::Math(mstart, _mend, _d) => mstart as int,
        RMode::Verb(_k, _ol, vstart) => vstart as int,
    }
}

/// Spans are well formed and never overlap: each event begins no earlier
/// than the previous one ended.
pub open spec fn spans_chained(evs: Seq<Event>) -> bool {
    &&& forall|x: int| 0 <= x < evs.len() ==> (#[trigger] evs[x].span).wf()
    &&& forall|x: int|
        1 <= x < evs.len() ==> evs[x - 1].span.end_s() <= (#[trigger] evs[x].span).start_s()
}

/// The spans tile `[0, upto)` exactly: the first event starts at zero, each
/// event starts exactly where the previous one ended, and the last event
/// ends at `upto`.
pub open spec fn covers(evs: Seq<Event>, upto: int) -> bool {
    &&& forall|x: int| 0 <= x < evs.len() ==> (#[trigger] evs[x].span).wf()
    &&& forall|x: int|
        0 <= x < evs.len() ==> (#[trigger] evs[x].span).start_s() == if x == 0 {
            0int
        } else {
            evs[x - 1].span.end_s()
        }
    &&& (evs.len() == 0 ==> upto == 0)
    &&& (evs.len() > 0 ==> evs.last().span.end_s() == upto)
}

/// Everything the resolver maintains about its state.
pub open spec fn inv(st: RState) -> bool {
    &&& segs_ok(st.events, st.openers)
    &&& spans_chained(st.events)
    &&& 0 <= mode_start(st) <= st.offset
    &&& (st.events.len() > 0 ==> st.events.last().span.end_s() <= mode_start(st))
    &&& (st.mode matches RMode::Math(mstart, mend, _d) ==> mstart <= mend && mend == st.offset)
}

/// The strengthening that holds when no verbatim run can occur: the events
/// cover the consumed input exactly, with no gaps.
pub open spec fn exact(st: RState) -> bool {
    &&& !(st.mode is Verb)
    &&& covers(st.events, mode_start(st))
}

/// No token of the stream is a backtick run (the delimiters of verbatim
/// spans, which are the one construct whose event covers only its interior).
pub open spec fn no_verbatim(tokens: Seq<Token>) -> bool {
    forall|x: int|
        0 <= x < tokens.len() ==> (#[trigger] tokens[x]).kind != TokenKind::Run(RunKind::Backtick)
}

/// Appending a leaf event (atom or node) through `push_merged` preserves
/// the buffer segments.
proof fn lemma_push_segs(evs: Seq<Event>, openers: Seq<(Container, usize)>, ev: Event)
    requires
        segs_ok(evs, openers),
        ev.kind is Atom || ev.kind is Node,
    ensures
        segs_ok(push_merged(evs, ev), openers),
{
    let n = evs.len() as int;
    let evs2 = push_merged(evs, ev);
    if evs.len() > 0 && evs.last().kind == EventKind::Node(Node::Str) && ev.kind
        == EventKind::Node(Node::Str) && evs.last().span.end_s() == ev.span.start_s() {
        assert(evs2.len() == n);
        assert forall|x: int| 0 <= x < n implies #[trigger] evs2[x].kind == evs[x].kind by {}
        assert forall|x: int|
            0 <= x <= openers.len() implies nested(
                evs2,
                seg_lo(openers, x),
                #[trigger] seg_hi(openers, evs2.len() as int, x),
            ) by {
            assert(seg_hi(openers, evs2.len() as int, x) == seg_hi(openers, n, x));
            assert(nested(evs, seg_lo(openers, x), seg_hi(openers, n, x)));
            lemma_nested_frame(evs, evs2, seg_lo(openers, x), seg_hi(openers, n, x));
        }
    } else {
        assert(evs2 == evs.push(ev));
        assert forall|x: int|
            0 <= x <= openers.len() implies nested(
                evs2,
                seg_lo(openers, x),
                #[trigger] seg_hi(openers, evs2.len() as int, x),
            ) by {
            if x < openers.len() {
                assert(seg_hi(openers, evs2.len() as int, x) == seg_hi(openers, n, x));
                assert(nested(evs, seg_lo(openers, x), seg_hi(openers, n, x)));
                lemma_nested_frame(evs, evs2, seg_lo(openers, x), seg_hi(openers, n, x));
            } else {
                assert(seg_hi(openers, n, x) == n);
                assert(nested(evs, seg_lo(openers, x), n));
                lemma_nested_frame(evs, evs2, seg_lo(openers, x), n);
                assert(nested(evs2, n + 1, n + 1));
                assert(nested(evs2, n, n + 1));
                lemma_nested_append(evs2, seg_lo(openers, x), n, n + 1);
                assert(seg_hi(openers, evs2.len() as int, x) == n + 1);
            }
        }
    }
}

/// Appending an `Enter(_, Unclosed)` event and its opener preserves the
/// buffer segments: the new opener begins an empty segment.
proof fn lemma_open_segs(evs: Seq<Event>, openers: Seq<(Container, usize)>, c: Container, sp: Span)
    requires
        segs_ok(evs, openers),
        evs.len() <= usize::MAX,
    ensures
        segs_ok(
            evs.push(Event { kind: EventKind::Enter(c, OpenerState::Unclosed), span: sp }),
            openers.push((c, evs.len() as usize)),
        ),
{
    let n = evs.len() as int;
    let evs2 = evs.push(Event { kind: EventKind::Enter(c, OpenerState::Unclosed), span: sp });
    let openers2 = openers.push((c, evs.len() as usize));
    let k = openers.len() as int;
    assert(openers2.len() == k + 1);
    assert(openers2[k] == (c, evs.len() as usize));
    assert forall|x: int| 0 <= x < k implies #[trigger] openers2[x] == openers[x] by {}
    assert forall|x: int|
        0 <= x <= openers2.len() implies nested(
        evs2,
        seg_lo(openers2, x),
        #[trigger] seg_hi(openers2, evs2.len() as int, x),
    ) by {
        if x <= k {
            assert(seg_lo(openers2, x) == seg_lo(openers, x));
            if x == k {
                assert(seg_hi(openers2, evs2.len() as int, x) == n);
                assert(seg_hi(openers, n, x) == n);
            } else {
                assert(seg_hi(openers2, evs2.len() as int, x) == openers[x].1 as int);
                assert(seg_hi(openers, n, x) == openers[x].1 as int);
            }
            assert(nested(evs, seg_lo(openers, x), seg_hi(openers, n, x)));
            lemma_nested_frame(evs, evs2, seg_lo(openers, x), seg_hi(openers, n, x));
        } else {
            assert(x == k + 1);
            assert(seg_lo(openers2, x) == openers2[k].1 + 1);
            assert(seg_lo(openers2, x) == n + 1);
            assert(seg_hi(openers2, evs2.len() as int, x) == n + 1);
        }
    }
}

/// Every event from just after open enter `x` to the end of the buffer
/// forms one properly nested region: the later open enters are `Unclosed`
/// leaves between nested segments.
proof fn lemma_segs_join(evs: Seq<Event>, openers: Seq<(Container, usize)>, x: int)
    requires
        segs_ok(evs, openers),
        0 <= x < openers.len(),
    ensures
        nested(evs, openers[x].1 + 1, evs.len() as int),
    decreases openers.len() - x,
{
    let n = evs.len() as int;
    assert(nested(evs, seg_lo(openers, x + 1), seg_hi(openers, n, x + 1)));
    if x + 1 == openers.len() {
        assert(seg_hi(openers, n, x + 1) == n);
    } else {
        let e2 = openers[x + 1].1 as int;
        lemma_segs_join(evs, openers, x + 1);
        assert(nested(evs, e2 + 1, n));
        assert(evs[e2].kind == EventKind::Enter(openers[x + 1].0, OpenerState::Unclosed));
        assert(nested(evs, e2, n));
        lemma_nested_append(evs, openers[x].1 + 1, e2, n);
    }
}

/// The whole buffer is one properly nested region.
proof fn lemma_segs_all(evs: Seq<Event>, openers: Seq<(Container, usize)>)
    requires
        segs_ok(evs, openers),
    ensures
        nested(evs, 0, evs.len() as int),
{
    let n = evs.len() as int;
    if openers.len() == 0 {
        assert(seg_hi(openers, n, 0) == n);
        assert(nested(evs, seg_lo(openers, 0), seg_hi(openers, n, 0)));
    } else {
        let e0 = openers[0].1 as int;
        assert(seg_hi(openers, n, 0) == e0);
        assert(nested(evs, seg_lo(openers, 0), seg_hi(openers, n, 0)));
        lemma_segs_join(evs, openers, 0);
        assert(evs[e0].kind == EventKind::Enter(openers[0].0, OpenerState::Unclosed));
        assert(nested(evs, e0, n));
        lemma_nested_append(evs, 0, e0, n);
    }
}

/// Closing opener `oi` preserves the buffer segments: its `Enter` turns
/// `Closed` and matches the appended `Exit`; the openers stacked above it
/// are abandoned as `Unclosed` leaves inside the closed region.
proof fn lemma_close_segs(
    evs: Seq<Event>,
    openers: Seq<(Container, usize)>,
    oi: int,
    c: Container,
    sp: Span,
)
    requires
        segs_ok(evs, openers),
        0 <= oi < openers.len(),
        openers[oi].0 == c,
    ensures
        segs_ok(
            evs.update(
                openers[oi].1 as int,
                Event {
                    kind: EventKind::Enter(c, OpenerState::Closed),
                    span: evs[openers[oi].1 as int].span,
                },
            ).push(Event { kind: EventKind::Exit(c), span: sp }),
            openers.take(oi),
        ),
{
    let n = evs.len() as int;
    let e = openers[oi].1 as int;
    let evs2 = evs.update(
        e,
        Event { kind: EventKind::Enter(c, OpenerState::Closed), span: evs[e].span },
    ).push(Event { kind: EventKind::Exit(c), span: sp });
    let openers2 = openers.take(oi);
    assert(evs2.len() == n + 1);
    assert forall|x: int| 0 <= x < n && x != e implies #[trigger] evs2[x].kind == evs[x].kind by {}
    assert(evs2[e].kind == EventKind::Enter(c, OpenerState::Closed));
    assert(evs2[n].kind == EventKind::Exit(c));
    assert forall|x: int|
        0 <= x <= openers2.len() implies nested(
        evs2,
        seg_lo(openers2, x),
        #[trigger] seg_hi(openers2, evs2.len() as int, x),
    ) by {
        if x < oi {
            assert(seg_lo(openers2, x) == seg_lo(openers, x));
            assert(seg_hi(openers2, evs2.len() as int, x) == seg_hi(openers, n, x));
            assert(openers[x].1 < e);
            assert(seg_hi(openers, n, x) <= e);
            assert(nested(evs, seg_lo(openers, x), seg_hi(openers, n, x)));
            lemma_nested_frame(evs, evs2, seg_lo(openers, x), seg_hi(openers, n, x));
        } else {
            // the merged last segment: everything from the segment before
            // the closed enter through the new exit
            assert(x == oi);
            assert(seg_lo(openers2, x) == seg_lo(openers, oi));
            assert(seg_hi(openers2, evs2.len() as int, x) == n + 1);
            assert(seg_hi(openers, n, oi) == e);
            assert(nested(evs, seg_lo(openers, oi), e));
            lemma_nested_frame(evs, evs2, seg_lo(openers, oi), e);
            lemma_segs_join(evs, openers, oi);
            assert(nested(evs, e + 1, n));
            lemma_nested_frame(evs, evs2, e + 1, n);
            assert(e < n < n + 1 && evs2[n].kind == EventKind::Exit(c) && nested(evs2, e + 1, n)
                && nested(evs2, n + 1, n + 1));
            assert(nested(evs2, e, n + 1));
            lemma_nested_append(evs2, seg_lo(openers, oi), e, n + 1);
        }
    }
}

/// `push_merged` keeps spans chained, given the new event begins no earlier
/// than the last one ended.
proof fn lemma_chain_push(evs: Seq<Event>, ev: Event)
    requires
        spans_chained(evs),
        ev.span.wf(),
        evs.len() > 0 ==> evs.last().span.end_s() <= ev.span.start_s(),
    ensures
        spans_chained(push_merged(evs, ev)),
        push_merged(evs, ev).len() > 0,
        push_merged(evs, ev).last().span.end_s() == ev.span.end_s(),
{
    let n = evs.len() as int;
    let evs2 = push_merged(evs, ev);
    if evs.len() > 0 && evs.last().kind == EventKind::Node(Node::Str) && ev.kind
        == EventKind::Node(Node::Str) && evs.last().span.end_s() == ev.span.start_s() {
        assert(evs2.len() == n);
        assert(evs2.last().span.end_s() == ev.span.end_s());
    } else {
        assert(evs2 == evs.push(ev));
    }
}

/// `push_merged` of an event starting exactly at `upto` extends an exact
/// cover of `[0, upto)` to one of `[0, end of the event)`.
proof fn lemma_covers_push(evs: Seq<Event>, upto: int, ev: Event)
    requires
        covers(evs, upto),
        ev.span.wf(),
        ev.span.start_s() == upto,
    ensures
        covers(push_merged(evs, ev), ev.span.end_s()),
{
    let n = evs.len() as int;
    let evs2 = push_merged(evs, ev);
    if evs.len() > 0 && evs.last().kind == EventKind::Node(Node::Str) && ev.kind
        == EventKind::Node(Node::Str) && evs.last().span.end_s() == ev.span.start_s() {
        assert(evs2.len() == n);
        assert(evs2.last().span.end_s() == ev.span.end_s());
    } else {
        assert(evs2 == evs.push(ev));
    }
}

proof fn lemma_sum_take_step(tokens: Seq<Token>, i: int)
    requires
        0 <= i < tokens.len(),
    ensures
        sum_lens(tokens.take(i + 1)) == sum_lens(tokens.take(i)) + tokens[i].len,
{
    assert_seqs_equal!(tokens.take(i + 1).drop_last(), tokens.take(i));
    assert(tokens.take(i + 1).last() == tokens[i]);
}

proof fn lemma_sum_take_bound(tokens: Seq<Token>, i: int)
    requires
        0 <= i <= tokens.len(),
    ensures
        sum_lens(tokens.take(i)) <= sum_lens(tokens),
    decreases tokens.len() - i,
{
    if i == tokens.len() {
        assert_seqs_equal!(tokens.take(i), tokens);
    } else {
        lemma_sum_take_step(tokens, i);
        lemma_sum_take_bound(tokens, i + 1);
    }
}

/// The resolver's working state.
struct RStateX {
    events: Vec<Event>,
    openers: Vec<(Container, usize)>,
    offset: usize,
    mode: RMode,
}

impl RStateX {
    spec fn view_s(self) -> RState {
        RState { events: self.events@, openers: self.openers@, offset: self.offset, mode: self.mode }
    }
}

/// Append an event to the buffer, coalescing adjacent plain-text runs.
fn push_ev(events: &mut Vec<Event>, ev: Event)
    ensures
        final(events)@ == push_merged(old(events)@, ev),
{
    let n = events.len();
    if n > 0 {
        let last = events[n - 1];
        if matches!(last.kind, EventKind::Node(Node::Str)) && matches!(
            ev.kind,
            EventKind::Node(Node::Str),
        ) && last.span.end == ev.span.start {
            events.set(
                n - 1,
                Event {
                    kind: EventKind::Node(Node::Str),
                    span: Span { start: last.span.start, end: ev.span.end },
                },
            );
            return ;
        }
    }
    events.push(ev);
}

/// The container a delimiter token stands for, and from which side.
fn container_of(k: TokenKind) -> (r: Option<(Container, Dir)>)
    ensures
        r == spec_container_of(k),
{
    match k {
        TokenKind::Sym(Symbol::Asterisk) => Some((Container::Strong, Dir::Both)),
        TokenKind::Sym(Symbol::Underscore) => Some((Container::Emphasis, Dir::Both)),
        TokenKind::Sym(Symbol::Caret) => Some((Container::Superscript, Dir::Both)),
        TokenKind::Sym(Symbol::Tilde) => Some((Container::Subscript, Dir::Both)),
        TokenKind::Sym(Symbol::Quote1) => Some((Container::SingleQuoted, Dir::Both)),
        TokenKind::Sym(Symbol::Quote2) => Some((Container::DoubleQuoted, Dir::Both)),
        TokenKind::Open(Delimiter::Bracket) => Some((Container::Span, Dir::Open)),
        TokenKind::Close(Delimiter::Bracket) => Some((Container::Span, Dir::Close)),
        TokenKind::Open(Delimiter::BraceAsterisk) => Some((Container::Strong, Dir::Open)),
        TokenKind::Close(Delimiter::BraceAsterisk) => Some((Container::Strong, Dir::Close)),
        TokenKind::Open(Delimiter::BraceCaret) => Some((Container::Superscript, Dir::Open)),
        TokenKind::Close(Delimiter::BraceCaret) => Some((Container::Superscript, Dir::Close)),
        TokenKind::Open(Delimiter::BraceEqual) => Some((Container::Mark, Dir::Open)),
        TokenKind::Close(Delimiter::BraceEqual) => Some((Container::Mark, Dir::Close)),
        TokenKind::Open(Delimiter::BraceHyphen) => Some((Container::Delete, Dir::Open)),
        TokenKind::Close(Delimiter::BraceHyphen) => Some((Container::Delete, Dir::Close)),
        TokenKind::Open(Delimiter::BracePlus) => Some((Container::Insert, Dir::Open)),
        TokenKind::Close(Delimiter::BracePlus) => Some((Container::Insert, Dir::Close)),
        TokenKind::Open(Delimiter::BraceTilde) => Some((Container::Subscript, Dir::Open)),
        TokenKind::Close(Delimiter::BraceTilde) => Some((Container::Subscript, Dir::Close)),
        TokenKind::Open(Delimiter::BraceUnderscore) => Some((Container::Emphasis, Dir::Open)),
        TokenKind::Close(Delimiter::BraceUnderscore) => Some((Container::Emphasis, Dir::Close)),
        _ => None,
    }
}

/// The atom a token stands for, if any.
fn atom_of(k: TokenKind) -> (r: Option<Atom>)
    ensures
        r == spec_atom_of(k),
{
    match k {
        TokenKind::Escape => Some(Atom::Escape),
        TokenKind::Nbsp => Some(Atom::Nbsp),
        TokenKind::Sym(Symbol::Lt) => Some(Atom::Lt),
        TokenKind::Sym(Symbol::Gt) => Some(Atom::Gt),
        TokenKind::Sym(Symbol::Quote2) => Some(Atom::Quote),
        _ => None,
    }
}

/// Search the opener stack, from the top, for the rightmost opener of `c`.
fn find_opener_x(openers: &Vec<(Container, usize)>, c: Container) -> (r: Option<usize>)
    ensures
        (r matches Some(x) ==> find_opener(openers@, c) == x && x < openers@.len()),
        r is None ==> find_opener(openers@, c) == -1,
{
    let mut j = openers.len();
    proof {
        assert_seqs_equal!(openers@.take(j as int), openers@);
    }
    while j > 0
        invariant
            j <= openers@.len(),
            find_opener(openers@, c) == find_opener(openers@.take(j as int), c),
        decreases j,
    {
        j = j - 1;
        let p = openers[j];
        proof {
            assert(openers@.take(j as int + 1).last() == openers@[j as int]);
        }
        if p.0 == c {
            proof {
                assert(find_opener(openers@.take(j as int + 1), c) == j);
            }
            return Some(j);
        }
        proof {
            assert_seqs_equal!(openers@.take(j as int + 1).drop_last(), openers@.take(j as int));
        }
    }
    proof {
        assert(openers@.take(0).len() == 0);
    }
    None
}

/// Handle one token in `Normal` mode.
fn do_normal(st: &mut RStateX, t: Token)
    requires
        old(st).mode == RMode::Normal,
        inv(old(st).view_s()),
        old(st).offset + t.len <= usize::MAX,
    ensures
        final(st).view_s() == step_normal(old(st).view_s(), t),
        inv(final(st).view_s()),
        final(st).offset == old(st).offset + t.len,
        (exact(old(st).view_s()) && t.kind != TokenKind::Run(RunKind::Backtick) ==> exact(
            final(st).view_s(),
        )),
{
    let ghost pre = st.view_s();
    let start = st.offset;
    let end = st.offset + t.len;
    let sp = Span { start, end };
    match t.kind {
        TokenKind::Run(RunKind::Backtick) => {
            st.offset = end;
            st.mode = RMode::Verb(Node::Verbatim, t.len, end);
        },
        TokenKind::Run(RunKind::Dollar) => {
            if t.len <= 2 {
                st.offset = end;
                st.mode = RMode::Math(start, end, t.len == 2);
            } else {
                push_ev(&mut st.events, Event { kind: EventKind::Node(Node::Str), span: sp });
                st.offset = end;
                proof {
                    lemma_push_segs(pre.events, pre.openers, str_event(sp));
                    lemma_chain_push(pre.events, str_event(sp));
                    if exact(pre) {
                        lemma_covers_push(pre.events, pre.offset as int, str_event(sp));
                    }
                }
            }
        },
        _ => {
            match container_of(t.kind) {
                Some((c, dir)) => {
                    let found = find_opener_x(&st.openers, c);
                    if !matches!(dir, Dir::Open) && found.is_some() {
                        let oi = found.unwrap();
                        let ghost goi = oi as int;
                        let e = st.openers[oi].1;
                        let old_ev = st.events[e];
                        let exit_ev = Event { kind: EventKind::Exit(c), span: sp };
                        st.events.set(
                            e,
                            Event { kind: EventKind::Enter(c, OpenerState::Closed), span: old_ev.span },
                        );
                        st.events.push(exit_ev);
                        st.openers.truncate(oi);
                        st.offset = end;
                        proof {
                            lemma_find_opener_props(pre.openers, c);
                            assert(pre.openers[goi].0 == c);
                            assert(st.openers@ == pre.openers.take(goi));
                            lemma_close_segs(pre.events, pre.openers, goi, c, sp);
                            let mid = pre.events.update(
                                pre.openers[goi].1 as int,
                                Event {
                                    kind: EventKind::Enter(c, OpenerState::Closed),
                                    span: pre.events[pre.openers[goi].1 as int].span,
                                },
                            );
                            assert(st.events@ == mid.push(exit_ev));
                            assert forall|x: int|
                                0 <= x < mid.len() implies (#[trigger] mid[x]).span
                                == pre.events[x].span by {}
                            assert(spans_chained(mid));
                            assert(mid.len() > 0 ==> mid.last().span.end_s() <= sp.start_s());
                            assert(push_merged(mid, exit_ev) == mid.push(exit_ev));
                            lemma_chain_push(mid, exit_ev);
                            if exact(pre) {
                                assert(covers(mid, pre.offset as int));
                                lemma_covers_push(mid, pre.offset as int, exit_ev);
                            }
                        }
                    } else if matches!(dir, Dir::Close) {
                        push_ev(&mut st.events, Event { kind: EventKind::Node(Node::Str), span: sp });
                        st.offset = end;
                        proof {
                            lemma_push_segs(pre.events, pre.openers, str_event(sp));
                            lemma_chain_push(pre.events, str_event(sp));
                            if exact(pre) {
                                lemma_covers_push(pre.events, pre.offset as int, str_event(sp));
                            }
                        }
                    } else {
                        let n = st.events.len();
                        let enter_ev = Event {
                            kind: EventKind::Enter(c, OpenerState::Unclosed),
                            span: sp,
                        };
                        st.events.push(enter_ev);
                        st.openers.push((c, n));
                        st.offset = end;
                        proof {
                            lemma_open_segs(pre.events, pre.openers, c, sp);
                            assert(push_merged(pre.events, enter_ev) == pre.events.push(enter_ev));
                            lemma_chain_push(pre.events, enter_ev);
                            if exact(pre) {
                                lemma_covers_push(pre.events, pre.offset as int, enter_ev);
                            }
                        }
                    }
                },
                None => {
                    match atom_of(t.kind) {
                        Some(a) => {
                            let atom_ev = Event { kind: EventKind::Atom(a), span: sp };
                            st.events.push(atom_ev);
                            st.offset = end;
                            proof {
                                lemma_push_segs(pre.events, pre.openers, atom_ev);
                                assert(push_merged(pre.events, atom_ev) == pre.events.push(atom_ev));
                                lemma_chain_push(pre.events, atom_ev);
                                if exact(pre) {
                                    lemma_covers_push(pre.events, pre.offset as int, atom_ev);
                                }
                            }
                        },
                        None => {
                            push_ev(&mut st.events, Event { kind: EventKind::Node(Node::Str), span: sp });
                            st.offset = end;
                            proof {
                                lemma_push_segs(pre.events, pre.openers, str_event(sp));
                                lemma_chain_push(pre.events, str_event(sp));
                                if exact(pre) {
                                    lemma_covers_push(pre.events, pre.offset as int, str_event(sp));
                                }
                            }
                        },
                    }
                },
            }
        },
    }
}

/// Handle one token in whatever mode the resolver is in.
#[verifier::rlimit(50)]
fn do_step(st: &mut RStateX, t: Token)
    requires
        inv(old(st).view_s()),
        old(st).offset + t.len <= usize::MAX,
    ensures
        final(st).view_s() == step(old(st).view_s(), t),
        inv(final(st).view_s()),
        final(st).offset == old(st).offset + t.len,
        (exact(old(st).view_s()) && t.kind != TokenKind::Run(RunKind::Backtick) ==> exact(
            final(st).view_s(),
        )),
{
    let ghost pre = st.view_s();
    let mode = st.mode;
    match mode {
        RMode::Verb(kind, olen, vstart) => {
            let end = st.offset + t.len;
            let is_closer = matches!(t.kind, TokenKind::Run(RunKind::Backtick)) && t.len == olen;
            if is_closer {
                let node_ev = Event {
                    kind: EventKind::Node(kind),
                    span: Span { start: vstart, end: st.offset },
                };
                push_ev(&mut st.events, node_ev);
                st.offset = end;
                st.mode = RMode::Normal;
                proof {
                    lemma_push_segs(pre.events, pre.openers, node_ev);
                    lemma_chain_push(pre.events, node_ev);
                }
            } else {
                st.offset = end;
            }
        },
        RMode::Math(mstart, mend, display) => {
            if matches!(t.kind, TokenKind::Run(RunKind::Backtick)) {
                let end = st.offset + t.len;
                st.offset = end;
                st.mode = RMode::Verb(
                    if display {
                        Node::DisplayMath
                    } else {
                        Node::InlineMath
                    },
                    t.len,
                    end,
                );
            } else {
                let decay = Event {
                    kind: EventKind::Node(Node::Str),
                    span: Span { start: mstart, end: mend },
                };
                push_ev(&mut st.events, decay);
                st.mode = RMode::Normal;
                proof {
                    lemma_push_segs(pre.events, pre.openers, decay);
                    lemma_chain_push(pre.events, decay);
                    if exact(pre) {
                        lemma_covers_push(pre.events, mstart as int, decay);
                    }
                    assert(inv(st.view_s()));
                }
                do_normal(st, t);
            }
        },
        RMode::Normal => {
            do_normal(st, t);
        },
    }
}

/// Resolve a whole token stream into its inline event sequence.
///
/// The contract pins the result to the specification fold `resolve_spec`,
/// and states the stream's structural laws: the events are properly nested
/// (`nested`), their spans never overlap (`spans_chained`), and on inputs
/// without verbatim delimiters they tile the consumed bytes exactly
/// (`covers`).
pub fn resolve(tokens: &Vec<Token>) -> (r: Vec<Event>)
    requires
        sum_lens(tokens@) <= usize::MAX,
    ensures
        r@ == resolve_spec(tokens@),
        nested(r@, 0, r@.len() as int),
        spans_chained(r@),
        (r@.len() > 0 ==> r@.last().span.end_s() <= sum_lens(tokens@)),
        (no_verbatim(tokens@) ==> covers(r@, sum_lens(tokens@))),
{
    let mut st = RStateX {
        events: Vec::new(),
        openers: Vec::new(),
        offset: 0,
        mode: RMode::Normal,
    };
    proof {
        assert_seqs_equal!(st.events@, init_state().events);
        assert_seqs_equal!(st.openers@, init_state().openers);
        assert(st.view_s() == init_state());
        assert_seqs_equal!(tokens@.take(0), Seq::<Token>::empty());
    }
    let n = tokens.len();
    let mut i: usize = 0;
    while i < n
        invariant
            n == tokens@.len(),
            i <= n,
            st.view_s() == resolve_fold(tokens@, i as int),
            inv(st.view_s()),
            st.offset as int == sum_lens(tokens@.take(i as int)),
            sum_lens(tokens@) <= usize::MAX,
            (no_verbatim(tokens@) ==> exact(st.view_s())),
        decreases n - i,
    {
        let t = tokens[i];
        proof {
            lemma_sum_take_step(tokens@, i as int);
            lemma_sum_take_bound(tokens@, i as int + 1);
        }
        do_step(&mut st, t);
        i = i + 1;
    }
    proof {
        assert_seqs_equal!(tokens@.take(n as int), tokens@);
    }
    let ghost fin = st.view_s();
    match st.mode {
        RMode::Normal => {
            proof {
                assert(finalize(fin) == fin.events);
            }
        },
        RMode::Math(mstart, mend, _d) => {
            let decay = Event {
                kind: EventKind::Node(Node::Str),
                span: Span { start: mstart, end: mend },
            };
            push_ev(&mut st.events, decay);
            proof {
                lemma_push_segs(fin.events, fin.openers, decay);
                lemma_chain_push(fin.events, decay);
                if exact(fin) {
                    lemma_covers_push(fin.events, mstart as int, decay);
                }
            }
        },
        RMode::Verb(kind, _olen, vstart) => {
            let node_ev = Event {
                kind: EventKind::Node(kind),
                span: Span { start: vstart, end: st.offset },
            };
            push_ev(&mut st.events, node_ev);
            proof {
                lemma_push_segs(fin.events, fin.openers, node_ev);
                lemma_chain_push(fin.events, node_ev);
            }
        },
    }
    proof {
        assert(st.events@ == finalize(fin));
        lemma_segs_all(st.events@, fin.openers);
    }
    let RStateX { events, openers: _, offset: _, mode: _ } = st;
    events
}

/// The inline parser: feed it a token stream with `parse`, then pull the
/// resolved, properly nested event stream one event at a time with `next`.
pub struct Parser {
    events: Vec<Event>,
    emitted: usize,
}

impl Parser {
    /// The resolved events of the last parsed stream.
    pub closed spec fn events_s(&self) -> Seq<Event> {
        self.events@
    }

    /// How many events `next` has already handed out.
    pub closed spec fn emitted_s(&self) -> int {
        self.emitted as int
    }

    pub closed spec fn wf(&self) -> bool {
        self.emitted <= self.events@.len()
    }

    pub fn new() -> (r: Parser)
        ensures
            r.wf(),
            r.events_s().len() == 0,
            r.emitted_s() == 0,
    {
        Parser { events: Vec::new(), emitted: 0 }
    }

    /// Resolve a whole token stream; `next` then replays its events from
    /// the beginning.
    pub fn parse(&mut self, tokens: &Vec<Token>)
        requires
            sum_lens(tokens@) <= usize::MAX,
        ensures
            final(self).wf(),
            final(self).events_s() == resolve_spec(tokens@),
            final(self).emitted_s() == 0,
            nested(final(self).events_s(), 0, final(self).events_s().len() as int),
            spans_chained(final(self).events_s()),
            (final(self).events_s().len() > 0 ==> final(self).events_s().last().span.end_s()
                <= sum_lens(tokens@)),
            (no_verbatim(tokens@) ==> covers(final(self).events_s(), sum_lens(tokens@))),
    {
        self.events = resolve(tokens);
        self.emitted = 0;
    }

    /// The next resolved event, in buffer order; `None` once the stream is
    /// exhausted.
    pub fn next(&mut self) -> (r: Option<Event>)
        requires
            old(self).wf(),
        ensures
            final(self).wf(),
            final(self).events_s() == old(self).events_s(),
            (r is Some <==> old(self).emitted_s() < old(self).events_s().len()),
            (r matches Some(ev) ==> ev == old(self).events_s()[old(self).emitted_s()]
                && final(self).emitted_s() == old(self).emitted_s() + 1),
            (r is None ==> final(self).emitted_s() == old(self).emitted_s()),
    {
        if self.emitted < self.events.len() {
            let ev = self.events[self.emitted];
            self.emitted = self.emitted + 1;
            Some(ev)
        } else {
            None
        }
    }
}

} // verus!
