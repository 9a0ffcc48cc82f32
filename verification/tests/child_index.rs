use lib::child_index::{source_order, ChildExtent, ChildIndex, LayoutDisposition, PlannedNode};
use lib::window::SourceWindow;

fn child(start: usize, content_end: usize) -> PlannedNode {
    PlannedNode {
        start,
        end: content_end,
        content_end,
        control_start: None,
        can_defer: true,
        disposition: LayoutDisposition::Barrier,
    }
}

fn children() -> Vec<PlannedNode> {
    vec![child(30, 35), child(10, 50), child(20, 22), child(10, 12), child(40, 60)]
}

#[test]
fn source_order_sorts_by_start_then_position() {
    let order = source_order(&children());
    let expected = vec![
        ChildExtent { start: 10, end: 50, index: 1 },
        ChildExtent { start: 10, end: 12, index: 3 },
        ChildExtent { start: 20, end: 22, index: 2 },
        ChildExtent { start: 30, end: 35, index: 0 },
        ChildExtent { start: 40, end: 60, index: 4 },
    ];
    assert_eq!(order, expected);
}

#[test]
fn in_window_lists_children_starting_inside() {
    let index = ChildIndex::new(&children());
    assert_eq!(index.in_window(SourceWindow::all()), vec![1, 3, 2, 0, 4]);
    assert_eq!(index.in_window(SourceWindow::bounded(10, 20)), vec![1, 3]);
    assert_eq!(index.in_window(SourceWindow::bounded(21, 40)), vec![0]);
    assert_eq!(index.in_window(SourceWindow { start: 35, end: None }), vec![4]);
    assert!(index.in_window(SourceWindow::bounded(61, 70)).is_empty());
}

#[test]
fn crossing_lists_children_extending_past_a_boundary() {
    let index = ChildIndex::new(&children());
    assert_eq!(index.crossing(21), vec![1, 2]);
    assert_eq!(index.crossing(45), vec![1, 4]);
    // A child ending exactly at the boundary does not cross it.
    assert_eq!(index.crossing(50), vec![4]);
    assert!(index.crossing(10).is_empty());
    assert!(index.crossing(60).is_empty());
}

#[test]
fn an_empty_index_answers_nothing() {
    let index = ChildIndex::new(&[]);
    assert!(index.in_window(SourceWindow::all()).is_empty());
    assert!(index.crossing(0).is_empty());
}

#[test]
fn crossing_agrees_with_a_direct_scan() {
    let mut many = Vec::new();
    for k in 0..37usize {
        many.push(child((k * 7) % 41, (k * 7) % 41 + (k % 5) * 9));
    }
    let index = ChildIndex::new(&many);
    for boundary in 0..80 {
        let mut expected: Vec<usize> = (0..many.len())
            .filter(|&k| many[k].start < boundary && many[k].content_end > boundary)
            .collect();
        expected.sort_by_key(|&k| (many[k].start, k));
        assert_eq!(index.crossing(boundary), expected, "boundary {}", boundary);
    }
}
