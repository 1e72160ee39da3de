use inline_tree::span::Span;

#[test]
fn span_basics() {
    let s = Span::new(2, 5);
    assert_eq!(s.start(), 2);
    assert_eq!(s.end(), 5);
    assert_eq!(s.len(), 3);
    let e = s.extend(4);
    assert_eq!(e.start(), 2);
    assert_eq!(e.end(), 9);
    let z = Span::empty_at(7);
    assert_eq!(z.start(), 7);
    assert_eq!(z.end(), 7);
    assert_eq!(z.len(), 0);
}
