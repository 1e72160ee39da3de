use inline_tree::inline::{
    Atom, Container, Delimiter, Event, EventKind, Node, OpenerState, Parser, RunKind, Symbol,
    Token, TokenKind,
};
use inline_tree::span::Span;

// A small fixture standing in for the external lexer: it classifies the
// bytes of a test string into the token vocabulary the resolver consumes.

fn delim_of(b: u8) -> Option<Delimiter> {
    match b {
        b'*' => Some(Delimiter::BraceAsterisk),
        b'^' => Some(Delimiter::BraceCaret),
        b'=' => Some(Delimiter::BraceEqual),
        b'-' => Some(Delimiter::BraceHyphen),
        b'+' => Some(Delimiter::BracePlus),
        b'~' => Some(Delimiter::BraceTilde),
        b'_' => Some(Delimiter::BraceUnderscore),
        _ => None,
    }
}

fn sym_of(b: u8) -> Option<Symbol> {
    match b {
        b'*' => Some(Symbol::Asterisk),
        b'^' => Some(Symbol::Caret),
        b'<' => Some(Symbol::Lt),
        b'>' => Some(Symbol::Gt),
        b'\'' => Some(Symbol::Quote1),
        b'"' => Some(Symbol::Quote2),
        b'~' => Some(Symbol::Tilde),
        b'_' => Some(Symbol::Underscore),
        _ => None,
    }
}

fn boundary(b: &[u8], j: usize) -> bool {
    let c = b[j];
    if matches!(
        c,
        b'`' | b'$' | b'{' | b'[' | b']' | b'<' | b'>' | b'\'' | b'"' | b'*' | b'^' | b'~' | b'_'
            | b'\\'
    ) {
        return true;
    }
    matches!(c, b'-' | b'+' | b'=') && j + 1 < b.len() && b[j + 1] == b'}'
}

fn lex(src: &str) -> Vec<Token> {
    let b = src.as_bytes();
    let mut out = Vec::new();
    let mut i = 0;
    while i < b.len() {
        let c = b[i];
        if c == b'`' || c == b'$' {
            let mut j = i + 1;
            while j < b.len() && b[j] == c {
                j += 1;
            }
            let kind = if c == b'`' {
                TokenKind::Run(RunKind::Backtick)
            } else {
                TokenKind::Run(RunKind::Dollar)
            };
            out.push(Token { kind, len: j - i });
            i = j;
        } else if c == b'{' && i + 1 < b.len() && delim_of(b[i + 1]).is_some() {
            out.push(Token { kind: TokenKind::Open(delim_of(b[i + 1]).unwrap()), len: 2 });
            i += 2;
        } else if c == b'[' {
            out.push(Token { kind: TokenKind::Open(Delimiter::Bracket), len: 1 });
            i += 1;
        } else if c == b']' {
            out.push(Token { kind: TokenKind::Close(Delimiter::Bracket), len: 1 });
            i += 1;
        } else if delim_of(c).is_some() && i + 1 < b.len() && b[i + 1] == b'}' {
            out.push(Token { kind: TokenKind::Close(delim_of(c).unwrap()), len: 2 });
            i += 2;
        } else if sym_of(c).is_some() {
            out.push(Token { kind: TokenKind::Sym(sym_of(c).unwrap()), len: 1 });
            i += 1;
        } else if c == b'\\' && i + 1 < b.len() {
            out.push(Token { kind: TokenKind::Escape, len: 2 });
            i += 2;
        } else {
            let mut j = i + 1;
            while j < b.len() && !boundary(b, j) {
                j += 1;
            }
            out.push(Token { kind: TokenKind::Text, len: j - i });
            i = j;
        }
    }
    out
}

fn parse_events(src: &str) -> Vec<Event> {
    let toks = lex(src);
    let mut p = Parser::new();
    p.parse(&toks);
    let mut out = Vec::new();
    while let Some(e) = p.next() {
        out.push(e);
    }
    out
}

fn ev(kind: EventKind, start: usize, end: usize) -> Event {
    Event { kind, span: Span::new(start, end) }
}

#[test]
fn str() {
    assert_eq!(parse_events("abc"), vec![ev(EventKind::Node(Node::Str), 0, 3)]);
    assert_eq!(parse_events("abc def"), vec![ev(EventKind::Node(Node::Str), 0, 7)]);
}

#[test]
fn verbatim() {
    assert_eq!(parse_events("`abc`"), vec![ev(EventKind::Node(Node::Verbatim), 1, 4)]);
    assert_eq!(parse_events("`abc"), vec![ev(EventKind::Node(Node::Verbatim), 1, 4)]);
    assert_eq!(parse_events("``abc``"), vec![ev(EventKind::Node(Node::Verbatim), 2, 5)]);
    assert_eq!(
        parse_events("abc `def`"),
        vec![ev(EventKind::Node(Node::Str), 0, 4), ev(EventKind::Node(Node::Verbatim), 5, 8)]
    );
}

#[test]
fn math() {
    assert_eq!(parse_events("$`abc`"), vec![ev(EventKind::Node(Node::InlineMath), 2, 5)]);
    assert_eq!(parse_events("$$```abc"), vec![ev(EventKind::Node(Node::DisplayMath), 5, 8)]);
}

#[test]
fn container_basic() {
    assert_eq!(
        parse_events("_abc_"),
        vec![
            ev(EventKind::Enter(Container::Emphasis, OpenerState::Closed), 0, 1),
            ev(EventKind::Node(Node::Str), 1, 4),
            ev(EventKind::Exit(Container::Emphasis), 4, 5),
        ]
    );
    assert_eq!(
        parse_events("{_abc_}"),
        vec![
            ev(EventKind::Enter(Container::Emphasis, OpenerState::Closed), 0, 2),
            ev(EventKind::Node(Node::Str), 2, 5),
            ev(EventKind::Exit(Container::Emphasis), 5, 7),
        ]
    );
}

#[test]
fn container_nest() {
    assert_eq!(
        parse_events("{_{_abc_}_}"),
        vec![
            ev(EventKind::Enter(Container::Emphasis, OpenerState::Closed), 0, 2),
            ev(EventKind::Enter(Container::Emphasis, OpenerState::Closed), 2, 4),
            ev(EventKind::Node(Node::Str), 4, 7),
            ev(EventKind::Exit(Container::Emphasis), 7, 9),
            ev(EventKind::Exit(Container::Emphasis), 9, 11),
        ]
    );
    assert_eq!(
        parse_events("*_abc_*"),
        vec![
            ev(EventKind::Enter(Container::Strong, OpenerState::Closed), 0, 1),
            ev(EventKind::Enter(Container::Emphasis, OpenerState::Closed), 1, 2),
            ev(EventKind::Node(Node::Str), 2, 5),
            ev(EventKind::Exit(Container::Emphasis), 5, 6),
            ev(EventKind::Exit(Container::Strong), 6, 7),
        ]
    );
}

#[test]
fn container_unopened() {
    assert_eq!(parse_events("*}abc"), vec![ev(EventKind::Node(Node::Str), 0, 5)]);
}

#[test]
fn container_close_parent() {
    assert_eq!(
        parse_events("{*{_abc*}"),
        vec![
            ev(EventKind::Enter(Container::Strong, OpenerState::Closed), 0, 2),
            ev(EventKind::Enter(Container::Emphasis, OpenerState::Unclosed), 2, 4),
            ev(EventKind::Node(Node::Str), 4, 7),
            ev(EventKind::Exit(Container::Strong), 7, 9),
        ]
    );
}

#[test]
fn container_close_block() {
    assert_eq!(
        parse_events("{_abc"),
        vec![
            ev(EventKind::Enter(Container::Emphasis, OpenerState::Unclosed), 0, 2),
            ev(EventKind::Node(Node::Str), 2, 5),
        ]
    );
    assert_eq!(
        parse_events("{_{*{_abc"),
        vec![
            ev(EventKind::Enter(Container::Emphasis, OpenerState::Unclosed), 0, 2),
            ev(EventKind::Enter(Container::Strong, OpenerState::Unclosed), 2, 4),
            ev(EventKind::Enter(Container::Emphasis, OpenerState::Unclosed), 4, 6),
            ev(EventKind::Node(Node::Str), 6, 9),
        ]
    );
}

#[test]
fn empty_input() {
    assert_eq!(parse_events(""), vec![]);
}

#[test]
fn verbatim_mismatched_closer() {
    // a shorter backtick run does not close a longer opener: the run is
    // swallowed and the verbatim extends to the end of the input
    assert_eq!(parse_events("``abc`"), vec![ev(EventKind::Node(Node::Verbatim), 2, 6)]);
}

#[test]
fn dollar_run_too_long_is_text() {
    assert_eq!(parse_events("$$$x"), vec![ev(EventKind::Node(Node::Str), 0, 4)]);
}

#[test]
fn dollar_without_backticks_is_text() {
    assert_eq!(parse_events("$abc"), vec![ev(EventKind::Node(Node::Str), 0, 4)]);
}

#[test]
fn atoms() {
    assert_eq!(
        parse_events("a<b>c"),
        vec![
            ev(EventKind::Node(Node::Str), 0, 1),
            ev(EventKind::Atom(Atom::Lt), 1, 2),
            ev(EventKind::Node(Node::Str), 2, 3),
            ev(EventKind::Atom(Atom::Gt), 3, 4),
            ev(EventKind::Node(Node::Str), 4, 5),
        ]
    );
}

#[test]
fn smart_quotes() {
    assert_eq!(
        parse_events("\"abc\""),
        vec![
            ev(EventKind::Enter(Container::DoubleQuoted, OpenerState::Closed), 0, 1),
            ev(EventKind::Node(Node::Str), 1, 4),
            ev(EventKind::Exit(Container::DoubleQuoted), 4, 5),
        ]
    );
}

#[test]
fn spans_cover_input_exactly() {
    // outside verbatim runs the event spans tile the input with no gaps
    for src in ["abc", "*_abc_*", "{_{*{_abc", "*}abc", "a<b>c", "$abc"] {
        let events = parse_events(src);
        let mut at = 0;
        for e in &events {
            assert_eq!(e.span.start(), at, "gap in {}", src);
            at = e.span.end();
        }
        assert_eq!(at, src.len(), "missing tail in {}", src);
    }
}

#[test]
fn bracket_span_container() {
    assert_eq!(
        parse_events("[abc]"),
        vec![
            ev(EventKind::Enter(Container::Span, OpenerState::Closed), 0, 1),
            ev(EventKind::Node(Node::Str), 1, 4),
            ev(EventKind::Exit(Container::Span), 4, 5),
        ]
    );
}
