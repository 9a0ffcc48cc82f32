use lib::window::SourceWindow;

#[test]
fn the_whole_source_contains_every_position() {
    let all = SourceWindow::all();
    assert_eq!(all, SourceWindow { start: 0, end: None });
    assert!(all.contains(0));
    assert!(all.contains(usize::MAX));
    assert!(!all.is_empty());
}

#[test]
fn bounded_windows_are_half_open_and_never_reversed() {
    let w = SourceWindow::bounded(3, 7);
    assert_eq!(w, SourceWindow { start: 3, end: Some(7) });
    assert!(w.contains(3));
    assert!(w.contains(6));
    assert!(!w.contains(7));
    assert!(!w.contains(2));
    let reversed = SourceWindow::bounded(9, 4);
    assert_eq!(reversed, SourceWindow { start: 9, end: Some(9) });
    assert!(reversed.is_empty());
}

#[test]
fn with_end_only_shrinks() {
    let open = SourceWindow { start: 2, end: None };
    assert_eq!(open.with_end(10), SourceWindow { start: 2, end: Some(10) });
    let w = SourceWindow::bounded(2, 8);
    assert_eq!(w.with_end(10), w);
    assert_eq!(w.with_end(5), SourceWindow { start: 2, end: Some(5) });
}

#[test]
fn intersection_holds_positions_in_both() {
    let a = SourceWindow::bounded(0, 10);
    let b = SourceWindow { start: 5, end: None };
    let both = a.intersect(b);
    assert_eq!(both, SourceWindow { start: 5, end: Some(10) });
    for pos in 0..15 {
        assert_eq!(both.contains(pos), a.contains(pos) && b.contains(pos));
    }
    let disjoint = SourceWindow::bounded(0, 3).intersect(SourceWindow::bounded(5, 8));
    assert_eq!(disjoint, SourceWindow { start: 5, end: Some(3) });
    assert!(disjoint.is_empty());
    assert!((0..10).all(|pos| !disjoint.contains(pos)));
}
