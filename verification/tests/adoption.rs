use lib::adoption::{
    collect_adoption_plan, collect_crossing_priors, planned_children_in_source_order,
    AdoptionPlan, ParentKind, ParentShape, ParentSlot,
};
use lib::layout::{
    branch_window, collect_inline_regions, content_child_mark, control_at_path,
    established_content_mark, helper_root_content_indent, mapping_own_end, scalar_parts_end,
    sequence_own_end, NodePathStep,
};
use lib::child_index::{LayoutDisposition, PlannedNode};
use lib::syntax::{
    BlockScalar, Comment, ControlBranch, ControlKind, ControlRegion, MappingEntry, Node,
    OpaqueKind, OpaqueNode, OutputAction, ScalarLine, ScalarPart, ScalarParts, SequenceItem, Span,
};
use lib::window::SourceWindow;

fn span(start: usize, end: usize) -> Span {
    Span { start, end }
}

fn entry(start: usize, end: usize, indent: usize, opens: bool, children: Vec<Node>) -> Node {
    Node::Mapping(MappingEntry {
        span: span(start, end),
        indent,
        opens_scope: opens,
        value: None,
        block: None,
        children,
    })
}

fn scalar(start: usize, end: usize, indent: usize) -> Node {
    Node::Scalar(ScalarLine {
        span: span(start, end),
        indent,
        content: ScalarParts { span: span(start, end), parts: vec![] },
    })
}

fn region(start: usize, end: usize, branches: Vec<(Span, Vec<Node>)>) -> ControlRegion {
    ControlRegion {
        kind: ControlKind::If,
        span: span(start, end),
        branches: branches
            .into_iter()
            .map(|(header, body)| ControlBranch { header, body })
            .collect(),
        render_indent: None,
    }
}

fn planned(start: usize, end: usize, control: Option<usize>, can_defer: bool) -> PlannedNode {
    PlannedNode {
        start,
        end,
        content_end: end,
        control_start: control,
        can_defer,
        disposition: LayoutDisposition::Barrier,
    }
}

/// `a:` holding `b: 1` (value reaching byte 12) and an open `c:`.
fn nested_document() -> Vec<Node> {
    let b = Node::Mapping(MappingEntry {
        span: span(5, 9),
        indent: 2,
        opens_scope: false,
        value: Some(ScalarParts { span: span(8, 9), parts: vec![ScalarPart::Text(span(8, 12))] }),
        block: None,
        children: vec![],
    });
    let c = entry(13, 15, 2, true, vec![]);
    vec![entry(0, 2, 0, true, vec![b, c])]
}

#[test]
fn plan_records_content_ends_and_shapes() {
    let nodes = nested_document();
    let plan = collect_adoption_plan(&nodes);
    assert_eq!(plan.content_end(0), Some(15));
    assert_eq!(plan.content_end(5), Some(12));
    assert_eq!(plan.content_end(13), Some(15));
    assert_eq!(plan.content_end(99), None);
    let root = plan.parent_shape(0).unwrap();
    assert_eq!(
        root,
        ParentShape {
            start: 0,
            slot: ParentSlot { owner_start: None, kind: ParentKind::Entry, indent: 0 },
            indent: 0,
            accepts_same_indent: true,
            established_content_mark: Some(5),
        }
    );
    assert_eq!(root.kind(), ParentKind::Entry);
    let b = plan.parent_shape(5).unwrap();
    assert!(!b.accepts_same_indent);
    assert_eq!(b.slot.owner_start, Some(0));
    assert_eq!(plan.parent_shape(99), None);
}

#[test]
fn plan_slot_members_are_bounded_by_the_shape() {
    let nodes = nested_document();
    let plan = collect_adoption_plan(&nodes);
    let c = plan.parent_shape(13).unwrap();
    assert_eq!(plan.slot_members_through(&c), vec![13]);
    let b = plan.parent_shape(5).unwrap();
    // `b:` has an inline value, so it opens no scope; its slot holds `c:` only.
    assert_eq!(plan.slot_members_through(&b), Vec::<usize>::new());
    let root = plan.parent_shape(0).unwrap();
    assert_eq!(plan.slot_members_through(&root), vec![0]);
}

#[test]
fn plan_trailing_open_chain_follows_open_parents() {
    let nodes = nested_document();
    let plan = collect_adoption_plan(&nodes);
    let chain = plan.trailing_open_chain(0, 100);
    assert_eq!(chain.len(), 1);
    assert_eq!(chain[0].start, 13);
    // Before `c:` starts, the last visible child is the closed `b: 1` line.
    assert!(plan.trailing_open_chain(0, 10).is_empty());
    // A node with no layout children has no chain.
    assert!(plan.trailing_open_chain(13, 100).is_empty());
}

#[test]
fn plan_child_index_lists_children_in_window() {
    let nodes = nested_document();
    let plan = collect_adoption_plan(&nodes);
    let index = plan.child_index(0).unwrap();
    assert_eq!(index.in_window(SourceWindow::all()), vec![0, 1]);
    assert_eq!(index.in_window(SourceWindow::bounded(10, 20)), vec![1]);
    assert!(plan.child_index(99).is_none());
}

/// `m:` at byte 20 whose only child is a control region opened at byte 10.
fn escaped_document() -> Vec<Node> {
    let r = Node::Control(region(10, 60, vec![(span(10, 18), vec![scalar(25, 30, 2)])]));
    vec![entry(20, 22, 0, true, vec![r])]
}

#[test]
fn plan_records_escaped_controls() {
    let nodes = escaped_document();
    let plan = collect_adoption_plan(&nodes);
    let (found, next) = plan
        .escaped_control(&nodes[0], 0, None, SourceWindow::all())
        .expect("the region escaped into the entry");
    assert_eq!(found.span.start, 10);
    assert_eq!(next, 1);
    // The control start lies outside this window.
    assert!(plan.escaped_control(&nodes[0], 0, None, SourceWindow::bounded(11, 99)).is_none());
    // The cursor is past the only control.
    assert!(plan.escaped_control(&nodes[0], 1, None, SourceWindow::all()).is_none());
    // Controls through the omitted boundary are skipped.
    assert!(plan.escaped_control(&nodes[0], 0, Some(10), SourceWindow::all()).is_none());
    assert_eq!(plan.cursor_after_control(20, 10, 0), 1);
    assert_eq!(plan.cursor_after_control(20, 10, 4), 4);
    assert_eq!(plan.cursor_after_control(20, 99, 3), 3);
    assert_eq!(plan.cursor_after_control(77, 10, 2), 2);
    // The entry's content ends with the region body; its end with the region.
    assert_eq!(plan.content_end(20), Some(30));
    assert_eq!(plan.content_end(10), Some(30));
    assert_eq!(plan.crossing_priors(10), Vec::<usize>::new());
}

#[test]
fn plan_records_crossing_priors_of_open_siblings() {
    let p = entry(0, 5, 0, true, vec![scalar(6, 50, 2)]);
    let r = Node::Control(region(30, 40, vec![]));
    let late = Node::Control(region(60, 70, vec![]));
    let nodes = vec![p, r, late];
    let plan = collect_adoption_plan(&nodes);
    assert_eq!(plan.crossing_priors(30), vec![0]);
    // `p` ended at byte 50, before the second region is evaluated.
    assert_eq!(plan.crossing_priors(60), Vec::<usize>::new());
}

#[test]
fn crossing_priors_sweep_in_evaluation_order() {
    let mut plan = AdoptionPlan::new();
    let nodes = vec![
        planned(40, 45, Some(35), false),
        planned(0, 50, None, true),
        planned(10, 20, None, true),
        planned(25, 30, Some(25), false),
    ];
    collect_crossing_priors(&nodes, &mut plan);
    // At 25 the sibling ending at 20 has expired; the one ending at 50 has not.
    assert_eq!(plan.crossing_priors(25), vec![0]);
    assert_eq!(plan.crossing_priors(35), vec![0]);
    assert_eq!(plan.crossing_priors(99), Vec::<usize>::new());
}

#[test]
fn planned_children_sort_by_start_keeping_ties_in_order() {
    let mut first = planned(5, 6, None, false);
    first.disposition = LayoutDisposition::OpenParent;
    let mut second = planned(5, 7, None, false);
    second.disposition = LayoutDisposition::Transparent;
    let children = vec![first, planned(3, 4, None, false), second, planned(1, 2, None, false)];
    let ordered = planned_children_in_source_order(&children);
    let starts: Vec<usize> = ordered.iter().map(|c| c.start).collect();
    assert_eq!(starts, vec![1, 3, 5, 5]);
    assert_eq!(ordered[2].disposition, LayoutDisposition::OpenParent);
    assert_eq!(ordered[3].disposition, LayoutDisposition::Transparent);
}

#[test]
fn branch_window_picks_the_branch_holding_a_start() {
    let r = region(10, 60, vec![(span(10, 18), vec![]), (span(30, 35), vec![])]);
    assert_eq!(branch_window(&r, 25), (0, SourceWindow::bounded(18, 30)));
    assert_eq!(branch_window(&r, 40), (1, SourceWindow::bounded(35, 60)));
    assert_eq!(branch_window(&r, 12), (0, SourceWindow::bounded(18, 30)));
    let empty = region(5, 9, vec![]);
    assert_eq!(branch_window(&empty, 7), (0, SourceWindow::bounded(5, 9)));
}

#[test]
fn control_at_path_follows_steps() {
    let nodes = escaped_document();
    let found = control_at_path(&nodes[0], &[NodePathStep::Child(0)]).unwrap();
    assert_eq!(found.span.start, 10);
    assert!(control_at_path(&nodes[0], &[NodePathStep::Child(1)]).is_none());
    assert!(control_at_path(&nodes[0], &[]).is_none());
    assert!(control_at_path(&nodes[0], &[NodePathStep::Branch { branch: 0, child: 0 }]).is_none());
    let deeper = control_at_path(
        &nodes[0],
        &[NodePathStep::Child(0), NodePathStep::Branch { branch: 0, child: 0 }],
    );
    assert!(deeper.is_none());
}

#[test]
fn content_marks_count_deeper_content() {
    let children = vec![
        Node::Comment(Comment { span: span(3, 4) }),
        Node::Output(OutputAction { span: span(5, 9), column: 0, width: Some(4), trims_left: false }),
        scalar(12, 14, 4),
        Node::Control(region(1, 40, vec![(span(1, 2), vec![scalar(2, 3, 6)])])),
    ];
    assert_eq!(established_content_mark(&children, 2), Some(2));
    assert_eq!(content_child_mark(&children, 2), Some(12));
    assert_eq!(established_content_mark(&children, 6), None);
    assert_eq!(content_child_mark(&children, 4), None);
    let output_only = vec![Node::Output(OutputAction { span: span(5, 9), column: 0, width: Some(4), trims_left: false })];
    assert_eq!(established_content_mark(&output_only, 2), Some(5));
    assert_eq!(established_content_mark(&output_only, 4), None);
}

#[test]
fn inline_regions_are_collected_in_source_order() {
    let inline = |start: usize| {
        Node::Opaque(OpaqueNode { span: span(start, start + 3), kind: OpaqueKind::InlineRegion })
    };
    let other = Node::Opaque(OpaqueNode { span: span(50, 51), kind: OpaqueKind::Other });
    let nodes = vec![
        inline(1),
        entry(5, 6, 0, true, vec![inline(7)]),
        Node::Control(region(10, 30, vec![(span(10, 12), vec![inline(13)])])),
        other,
    ];
    let mut out = vec![span(0, 0)];
    collect_inline_regions(&nodes, &mut out);
    assert_eq!(out, vec![span(0, 0), span(1, 4), span(7, 10), span(13, 16)]);
}

#[test]
fn own_ends_cover_values_and_block_scalars() {
    let parts = ScalarParts {
        span: span(4, 6),
        parts: vec![ScalarPart::Hole(span(4, 20)), ScalarPart::Text(span(20, 9))],
    };
    assert_eq!(scalar_parts_end(&parts), 20);
    let e = MappingEntry {
        span: span(0, 5),
        indent: 0,
        opens_scope: false,
        value: None,
        block: Some(BlockScalar { header: span(3, 6), body: span(7, 40) }),
        children: vec![],
    };
    assert_eq!(mapping_own_end(&e), 40);
    let item = SequenceItem {
        span: span(0, 8),
        indent: 0,
        value: Some(ScalarParts { span: span(2, 3), parts: vec![] }),
        block: None,
        children: vec![],
    };
    assert_eq!(sequence_own_end(&item), 8);
}

#[test]
fn sequence_items_open_scope_only_without_inline_content() {
    let open = Node::Sequence(SequenceItem {
        span: span(0, 2),
        indent: 0,
        value: None,
        block: None,
        children: vec![scalar(3, 8, 2)],
    });
    let closed = Node::Sequence(SequenceItem {
        span: span(10, 14),
        indent: 0,
        value: Some(ScalarParts { span: span(12, 14), parts: vec![] }),
        block: None,
        children: vec![],
    });
    let nodes = vec![open, closed];
    let plan = collect_adoption_plan(&nodes);
    let shape = plan.parent_shape(0).unwrap();
    assert_eq!(shape.kind(), ParentKind::Item);
    assert!(!shape.accepts_same_indent);
    assert_eq!(shape.established_content_mark, Some(3));
    assert_eq!(plan.slot_members_through(&shape), vec![0]);
    let closed_shape = plan.parent_shape(10).unwrap();
    assert_eq!(plan.slot_members_through(&closed_shape), vec![0]);
}

fn output_at(column: usize, width: Option<usize>, trims_left: bool) -> Node {
    Node::Output(OutputAction { span: span(40, 50), column, width, trims_left })
}

#[test]
fn helper_roots_start_at_their_least_rendered_indent() {
    assert_eq!(helper_root_content_indent(&entry(0, 2, 4, true, vec![])), Some(4));
    assert_eq!(helper_root_content_indent(&scalar(0, 2, 6)), Some(6));
    assert_eq!(helper_root_content_indent(&output_at(8, None, true)), Some(0));
    assert_eq!(helper_root_content_indent(&output_at(8, None, false)), Some(8));
    assert_eq!(helper_root_content_indent(&output_at(8, Some(2), true)), Some(2));
    let control = Node::Control(region(
        10,
        90,
        vec![
            (span(10, 15), vec![scalar(20, 22, 6), entry(30, 32, 4, true, vec![])]),
            (span(50, 55), vec![Node::Comment(Comment { span: span(60, 62) })]),
        ],
    ));
    assert_eq!(helper_root_content_indent(&control), Some(4));
    let silent = Node::Control(region(10, 20, vec![(span(10, 15), vec![])]));
    assert_eq!(helper_root_content_indent(&silent), None);
    assert_eq!(helper_root_content_indent(&Node::Comment(Comment { span: span(0, 3) })), None);
}
