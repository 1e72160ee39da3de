use inline_tree::span::Span;
use inline_tree::tree::{Builder, Element, Event, EventKind, Tree};

fn drain(t: &mut Tree<i32, i32>) -> Vec<Event<i32, i32>> {
    let mut out = Vec::new();
    while let Some(e) = t.next() {
        out.push(e);
    }
    out
}

fn render(mut t: Tree<i32, i32>) -> String {
    let mut s = String::new();
    s.push('\n');
    let mut level = 0usize;
    while let Some(e) = t.next() {
        let line = match e.kind {
            EventKind::Enter(c) => {
                let line = format!("{}{:?} ({}:{})\n", "  ".repeat(level), c, e.span.start(), e.span.end());
                level += 1;
                line
            }
            EventKind::Exit(_) => {
                level -= 1;
                continue;
            }
            EventKind::Atom(a) => {
                format!("{}{:?} ({}:{})\n", "  ".repeat(level), a, e.span.start(), e.span.end())
            }
            EventKind::Inline => {
                format!("{}Inline ({}:{})\n", "  ".repeat(level), e.span.start(), e.span.end())
            }
        };
        s.push_str(&line);
    }
    s
}

#[test]
fn fmt() {
    let mut tree = Builder::new();
    tree.enter(1, Span::new(0, 1));
    tree.atom(11, Span::new(0, 1));
    tree.atom(12, Span::new(0, 1));
    tree.exit();
    tree.enter(2, Span::new(1, 5));
    tree.enter(21, Span::new(2, 5));
    tree.enter(211, Span::new(3, 4));
    tree.atom(2111, Span::new(3, 4));
    tree.exit();
    tree.exit();
    tree.enter(22, Span::new(4, 5));
    tree.atom(221, Span::new(4, 5));
    tree.exit();
    tree.exit();
    tree.enter(3, Span::new(5, 6));
    tree.atom(31, Span::new(5, 6));
    tree.exit();
    assert_eq!(
        render(tree.finish()),
        "\n1 (0:1)\n  11 (0:1)\n  12 (0:1)\n2 (1:5)\n  21 (2:5)\n    211 (3:4)\n      2111 (3:4)\n  22 (4:5)\n    221 (4:5)\n3 (5:6)\n  31 (5:6)\n",
    );
}

#[test]
fn branch_take_branch() {
    let mut b = Builder::new();
    let sp = Span::new(0, 0);
    b.enter(1, sp);
    b.atom(11, sp);
    b.exit();
    b.enter(2, sp);
    b.enter(21, sp);
    b.atom(211, sp);
    b.exit();
    b.exit();
    b.enter(3, sp);
    b.atom(31, sp);
    b.exit();
    let mut tree = b.finish();

    let mut first = Vec::new();
    for _ in 0..3 {
        first.push(tree.next().unwrap());
    }
    assert_eq!(
        first,
        &[
            Event { kind: EventKind::Enter(1), span: sp },
            Event { kind: EventKind::Atom(11), span: sp },
            Event { kind: EventKind::Exit(1), span: sp },
        ]
    );
    assert_eq!(tree.next(), Some(Event { kind: EventKind::Enter(2), span: sp }));
    let mut branch = tree.take_branch();
    assert_eq!(
        drain(&mut branch),
        &[
            Event { kind: EventKind::Enter(21), span: sp },
            Event { kind: EventKind::Atom(211), span: sp },
            Event { kind: EventKind::Exit(21), span: sp },
        ]
    );
    assert_eq!(
        drain(&mut tree),
        &[
            Event { kind: EventKind::Enter(3), span: sp },
            Event { kind: EventKind::Atom(31), span: sp },
            Event { kind: EventKind::Exit(3), span: sp },
        ]
    );
}

#[test]
fn empty_tree() {
    let mut t: Tree<i32, i32> = Tree::empty();
    assert_eq!(t.count_children(), 0);
    assert_eq!(t.next(), None);
}

#[test]
fn count_children_ignores_descendants() {
    let mut b = Builder::new();
    let sp = Span::new(0, 0);
    b.enter(1, sp);
    b.atom(11, sp);
    b.atom(12, sp);
    b.exit();
    b.atom(2, sp);
    b.enter(3, sp);
    b.enter(31, sp);
    b.atom(311, sp);
    b.exit();
    b.exit();
    let tree = b.finish();
    // three top-level nodes, however deep their contents
    assert_eq!(tree.count_children(), 3);
}

#[test]
fn count_children_matches_drained_top_level() {
    let mut b = Builder::new();
    let sp = Span::new(0, 0);
    b.enter(1, sp);
    b.atom(11, sp);
    b.exit();
    b.atom(2, sp);
    b.inline(sp);
    let mut tree = b.finish();
    let counted = tree.count_children();
    // drain a fork of the cursor and count its top-level events by depth
    let mut depth = 0i32;
    let mut top = 0usize;
    for e in drain(&mut tree) {
        match e.kind {
            EventKind::Enter(_) => {
                if depth == 0 {
                    top += 1;
                }
                depth += 1;
            }
            EventKind::Exit(_) => depth -= 1,
            _ => {
                if depth == 0 {
                    top += 1;
                }
            }
        }
    }
    assert_eq!(counted, top);
}

#[test]
fn linear_reports_elements() {
    let mut b = Builder::new();
    let sp = Span::new(0, 0);
    b.enter(1, sp);
    b.atom(11, sp);
    b.exit();
    b.atom(2, sp);
    b.inline(sp);
    let tree = b.finish();
    assert_eq!(
        tree.linear(),
        vec![Element::Container(1), Element::Atom(2), Element::Inline]
    );
}

#[test]
fn linear_containers_shares_arena() {
    let mut b = Builder::new();
    let sp = Span::new(0, 0);
    b.enter(1, sp);
    b.atom(11, sp);
    b.exit();
    b.atom(2, sp);
    b.enter(3, sp);
    b.atom(31, sp);
    b.exit();
    let tree = b.finish();
    let mut subs = tree.linear_containers();
    assert_eq!(subs.len(), 2);
    let (c0, mut t0) = subs.remove(0);
    assert_eq!(c0, 1);
    assert_eq!(drain(&mut t0), &[Event { kind: EventKind::Atom(11), span: sp }]);
    let (c1, mut t1) = subs.remove(0);
    assert_eq!(c1, 3);
    assert_eq!(drain(&mut t1), &[Event { kind: EventKind::Atom(31), span: sp }]);
    // the original cursor is untouched by reading the forks
    let mut tree = tree;
    assert_eq!(drain(&mut tree).len(), 7);
}

#[test]
fn take_inlines_collects_spans() {
    let mut b: Builder<i32, i32> = Builder::new();
    b.enter(1, Span::new(0, 9));
    b.inline(Span::new(0, 3));
    b.inline(Span::new(3, 6));
    b.inline(Span::new(6, 9));
    b.exit();
    let mut tree = b.finish();
    assert_eq!(tree.next(), Some(Event { kind: EventKind::Enter(1), span: Span::new(0, 9) }));
    let spans = tree.take_inlines();
    assert_eq!(spans, vec![Span::new(0, 3), Span::new(3, 6), Span::new(6, 9)]);
    // the cursor resumes at the container's exit
    assert_eq!(tree.next(), Some(Event { kind: EventKind::Exit(1), span: Span::new(0, 9) }));
    assert_eq!(tree.next(), None);
}

#[test]
fn take_inlines_stops_at_first_non_inline() {
    let mut b: Builder<i32, i32> = Builder::new();
    b.enter(1, Span::new(0, 7));
    b.inline(Span::new(0, 3));
    b.inline(Span::new(3, 5));
    b.atom(9, Span::new(5, 6));
    b.inline(Span::new(6, 7));
    b.exit();
    let mut tree = b.finish();
    assert_eq!(tree.next(), Some(Event { kind: EventKind::Enter(1), span: Span::new(0, 7) }));
    // only the maximal run of consecutive inline leaves is consumed
    let spans = tree.take_inlines();
    assert_eq!(spans, vec![Span::new(0, 3), Span::new(3, 5)]);
    assert_eq!(tree.next(), Some(Event { kind: EventKind::Atom(9), span: Span::new(5, 6) }));
    let rest = tree.take_inlines();
    assert_eq!(rest, vec![Span::new(6, 7)]);
    assert_eq!(tree.next(), Some(Event { kind: EventKind::Exit(1), span: Span::new(0, 7) }));
    assert_eq!(tree.next(), None);
}

#[test]
fn builder_depth_tracks_open_containers() {
    let mut b: Builder<i32, i32> = Builder::new();
    let sp = Span::new(0, 0);
    assert_eq!(b.depth(), 0);
    b.enter(1, sp);
    assert_eq!(b.depth(), 1);
    b.enter(2, sp);
    assert_eq!(b.depth(), 2);
    b.exit();
    assert_eq!(b.depth(), 1);
    b.exit();
    assert_eq!(b.depth(), 0);
}

#[test]
fn build_replay_round_trip() {
    // replaying the finished tree's cursor reproduces the build calls
    // exactly, in order and with the same spans
    let mut b = Builder::new();
    b.enter(7, Span::new(0, 4));
    b.atom(8, Span::new(1, 2));
    b.inline(Span::new(2, 3));
    b.exit();
    b.atom(9, Span::new(4, 5));
    let mut tree = b.finish();
    assert_eq!(
        drain(&mut tree),
        &[
            Event { kind: EventKind::Enter(7), span: Span::new(0, 4) },
            Event { kind: EventKind::Atom(8), span: Span::new(1, 2) },
            Event { kind: EventKind::Inline, span: Span::new(2, 3) },
            Event { kind: EventKind::Exit(7), span: Span::new(0, 4) },
            Event { kind: EventKind::Atom(9), span: Span::new(4, 5) },
        ]
    );
}
