use std::collections::HashMap;

use lib::adoption::{collect_adoption_plan, ParentKind, ParentShape, ParentSlot};
use lib::deferred::{
    branch_node_lists, collect_deferred, split_escaped, Adopted, DeferredNodes, DeferredParent,
    GuardedParentChain, NodeView, ParentShell, ParentShellArm,
};
use lib::placement::{
    deferred_node_belongs_inside, node_belongs_inside, parent_contains_batch,
    split_structural_children,
};
use lib::steps::{
    branch_step_residuals, branch_steps, deferred_residual, source_ordered_branch_steps,
    BranchStep,
};
use lib::domain::EntryKey;
use lib::predicate::Predicate;
use lib::syntax::{
    Comment, ControlBranch, ControlKind, ControlRegion, MappingEntry, Node, OpaqueKind, OpaqueNode,
    OutputAction, ScalarLine, ScalarParts, SequenceItem, Span,
};
use lib::window::SourceWindow;

fn span(start: usize, end: usize) -> Span {
    Span { start, end }
}

fn entry(start: usize, indent: usize, children: Vec<Node>) -> Node {
    Node::Mapping(MappingEntry {
        span: span(start, start + 2),
        indent,
        opens_scope: true,
        value: None,
        block: None,
        children,
    })
}

fn scalar(start: usize, end: usize) -> Node {
    Node::Scalar(ScalarLine {
        span: span(start, end),
        indent: 4,
        content: ScalarParts { span: span(start, end), parts: vec![] },
    })
}

fn starts(nodes: &[&Node]) -> Vec<usize> {
    nodes.iter().map(|n| n.span_start()).collect()
}

/// `a:` (0) holding `b:` (10) holding lines at 12, 30 and 50, then a line at 60.
fn document() -> Vec<Node> {
    let b = entry(10, 2, vec![scalar(12, 14), scalar(30, 32), scalar(50, 52)]);
    vec![entry(0, 0, vec![b, scalar(60, 62)])]
}

#[test]
fn deferred_batches_follow_the_container_chain() {
    let nodes = document();
    let plan = collect_adoption_plan(&nodes);
    let mut shells: HashMap<usize, Vec<ParentShellArm>> = HashMap::new();
    shells.insert(
        10,
        vec![ParentShellArm { source_start: 10, condition: Predicate::True, shell: ParentShell::Entry(EntryKey::Literal("b".to_string())) }],
    );
    let mut chain: Vec<DeferredParent> = Vec::new();
    let mut out: Vec<DeferredNodes> = Vec::new();
    collect_deferred(&nodes[0], SourceWindow::bounded(25, 55), None, &plan, &shells, &mut chain, &mut out);
    assert!(chain.is_empty());
    assert_eq!(out.len(), 1);
    let batch = &out[0];
    assert_eq!(batch.chain.len(), 2);
    assert_eq!(batch.chain[0].shape.start, 0);
    assert_eq!(batch.chain[1].shape.start, 10);
    assert_eq!(batch.chain[0].arms.len(), 0);
    assert_eq!(batch.chain[1].arms.len(), 1);
    assert_eq!(batch.chain[1].indent(), 2);
    assert!(batch.chain[1].accepts_same_indent());
    assert_eq!(starts(&batch.nodes), vec![30, 50]);
    assert_eq!(batch.window, SourceWindow::bounded(25, 55));
    assert_eq!(batch.defer_end, Some(55));
    assert!(batch.resolved_chains.is_empty());
}

#[test]
fn deferred_batches_cover_each_container_level() {
    let nodes = document();
    let plan = collect_adoption_plan(&nodes);
    let shells = HashMap::new();
    let mut chain = Vec::new();
    let mut out = Vec::new();
    collect_deferred(&nodes[0], SourceWindow { start: 25, end: None }, Some(3), &plan, &shells, &mut chain, &mut out);
    assert_eq!(out.len(), 2);
    assert_eq!(starts(&out[0].nodes), vec![60]);
    assert_eq!(out[0].chain.len(), 1);
    assert_eq!(starts(&out[1].nodes), vec![30, 50]);
    assert_eq!(out[1].chain.len(), 2);
    assert_eq!(out[1].omitted_control, Some(3));
    assert_eq!(out[1].defer_end, None);
}

#[test]
fn content_ending_before_the_window_defers_nothing() {
    let nodes = document();
    let plan = collect_adoption_plan(&nodes);
    let shells = HashMap::new();
    let mut chain = Vec::new();
    let mut out = Vec::new();
    collect_deferred(&nodes[0], SourceWindow { start: 70, end: None }, None, &plan, &shells, &mut chain, &mut out);
    assert!(out.is_empty());
    let line = scalar(100, 101);
    collect_deferred(&line, SourceWindow::all(), None, &plan, &shells, &mut chain, &mut out);
    assert!(out.is_empty());
}

#[test]
fn controls_through_the_omitted_boundary_are_not_revisited() {
    let region = Node::Control(ControlRegion {
        kind: ControlKind::If,
        span: span(20, 80),
        branches: vec![ControlBranch { header: span(20, 25), body: vec![entry(30, 2, vec![scalar(40, 42)])] }],
        render_indent: Some(2),
    });
    let nodes = vec![region];
    let plan = collect_adoption_plan(&nodes);
    let shells = HashMap::new();
    let mut chain = Vec::new();
    let mut out = Vec::new();
    collect_deferred(&nodes[0], SourceWindow { start: 35, end: None }, Some(20), &plan, &shells, &mut chain, &mut out);
    assert!(out.is_empty());
    collect_deferred(&nodes[0], SourceWindow { start: 35, end: None }, Some(19), &plan, &shells, &mut chain, &mut out);
    assert_eq!(out.len(), 1);
    assert_eq!(starts(&out[0].nodes), vec![40]);
}

#[test]
fn escaped_batches_split_by_branch_window() {
    let region = ControlRegion {
        kind: ControlKind::If,
        span: span(100, 200),
        branches: vec![
            ControlBranch { header: span(100, 110), body: vec![] },
            ControlBranch { header: span(150, 160), body: vec![] },
        ],
        render_indent: None,
    };
    let owned = vec![scalar(120, 121), scalar(170, 171), scalar(105, 106), scalar(210, 211)];
    let refs: Vec<&Node> = owned.iter().collect();
    let parent = document();
    let plan = collect_adoption_plan(&parent);
    let shape = plan.parent_shape(0).unwrap();
    let escaped = vec![DeferredNodes {
        chain: vec![DeferredParent { shape, arms: &[] }],
        resolved_chains: vec![GuardedParentChain { condition: Predicate::True, parents: vec![] }],
        nodes: refs,
        window: SourceWindow { start: 100, end: None },
        defer_end: Some(300),
        omitted_control: None,
    }];
    let (per_branch, after) = split_escaped(&region, escaped);
    assert_eq!(per_branch.len(), 2);
    assert_eq!(per_branch[0].len(), 1);
    assert_eq!(starts(&per_branch[0][0].nodes), vec![120, 105]);
    assert_eq!(per_branch[0][0].window, SourceWindow { start: 110, end: Some(150) });
    assert_eq!(per_branch[0][0].chain.len(), 1);
    assert_eq!(per_branch[0][0].resolved_chains.len(), 1);
    assert_eq!(per_branch[1].len(), 1);
    assert_eq!(starts(&per_branch[1][0].nodes), vec![170]);
    assert_eq!(per_branch[1][0].window, SourceWindow { start: 160, end: Some(200) });
    assert_eq!(after.len(), 1);
    assert_eq!(starts(&after[0].nodes), vec![210]);
    assert_eq!(after[0].window, SourceWindow { start: 200, end: None });
    assert_eq!(after[0].defer_end, Some(300));
}

#[test]
fn escaped_batches_outside_a_branch_window_are_dropped() {
    let region = ControlRegion {
        kind: ControlKind::If,
        span: span(100, 200),
        branches: vec![ControlBranch { header: span(100, 110), body: vec![] }],
        render_indent: None,
    };
    let owned = vec![scalar(120, 121)];
    let escaped = vec![DeferredNodes {
        chain: vec![],
        resolved_chains: vec![],
        nodes: owned.iter().collect(),
        window: SourceWindow::bounded(50, 90),
        defer_end: None,
        omitted_control: None,
    }];
    let (per_branch, after) = split_escaped(&region, escaped);
    assert_eq!(per_branch.len(), 1);
    assert!(per_branch[0].is_empty());
    assert!(after.is_empty());
}

fn view_starts(views: &[NodeView]) -> Vec<usize> {
    views.iter().map(|v| v.node.span_start()).collect()
}

#[test]
fn in_scope_children_respect_the_window_and_omitted_controls() {
    let control = Node::Control(ControlRegion {
        kind: ControlKind::If,
        span: span(15, 40),
        branches: vec![],
        render_indent: None,
    });
    let late_control = Node::Control(ControlRegion {
        kind: ControlKind::If,
        span: span(45, 48),
        branches: vec![],
        render_indent: None,
    });
    let node = entry(0, 0, vec![scalar(5, 6), control, scalar(20, 22), late_control, scalar(70, 72)]);
    let plain = NodeView::plain(&node);
    assert_eq!(plain.window, SourceWindow::all());
    assert_eq!(plain.omitted_control, None);
    assert_eq!(plain.control_cursor, 0);
    assert_eq!(view_starts(&plain.in_scope_children()), vec![5, 15, 20, 45, 70]);
    let bounded = NodeView { node: &node, window: SourceWindow::bounded(10, 60), omitted_control: Some(15), control_cursor: 3 };
    let children = bounded.in_scope_children();
    assert_eq!(view_starts(&children), vec![20, 45]);
    assert!(children.iter().all(|c| c.window == bounded.window && c.omitted_control == Some(15) && c.control_cursor == 0));
    let leaf = scalar(1, 2);
    assert!(NodeView::plain(&leaf).in_scope_children().is_empty());
}

#[test]
fn branch_lists_merge_adopted_views_by_start() {
    let region = ControlRegion {
        kind: ControlKind::If,
        span: span(100, 200),
        branches: vec![
            ControlBranch { header: span(100, 110), body: vec![scalar(115, 116), scalar(140, 141)] },
            ControlBranch { header: span(150, 160), body: vec![scalar(165, 166)] },
        ],
        render_indent: None,
    };
    let escaped = vec![scalar(130, 131), scalar(170, 171), scalar(115, 117)];
    let adopted: Vec<Adopted> = escaped
        .iter()
        .map(|node| Adopted { view: NodeView::plain(node), defer_window: SourceWindow::all() })
        .collect();
    let lists = branch_node_lists(&region, &adopted);
    assert_eq!(lists.len(), 2);
    assert_eq!(view_starts(&lists[0]), vec![115, 115, 130, 140]);
    // The body node comes before the adopted view with the same start.
    assert_eq!(lists[0][1].node.span_start(), 115);
    assert!(std::ptr::eq(lists[0][0].node, &region.branches[0].body[0]));
    assert_eq!(view_starts(&lists[1]), vec![165, 170]);
}

#[test]
fn branch_steps_are_ordered_and_joined() {
    let lines = vec![scalar(10, 11), scalar(20, 21), scalar(30, 31), scalar(40, 41)];
    let direct = |i: usize| BranchStep::Direct(vec![NodeView::plain(&lines[i])]);
    let deferred = DeferredNodes {
        chain: vec![],
        resolved_chains: vec![],
        nodes: vec![&lines[1]],
        window: SourceWindow::all(),
        defer_end: None,
        omitted_control: None,
    };
    let steps = vec![direct(2), BranchStep::Deferred(deferred), direct(0), direct(3), BranchStep::Direct(vec![])];
    let ordered = source_ordered_branch_steps(steps);
    assert_eq!(ordered.len(), 3);
    match &ordered[0] {
        BranchStep::Direct(views) => assert_eq!(view_starts(views), vec![10]),
        other => panic!("unexpected {:?}", other),
    }
    assert!(matches!(&ordered[1], BranchStep::Deferred(batch) if batch.nodes.len() == 1));
    match &ordered[2] {
        BranchStep::Direct(views) => assert_eq!(view_starts(views), vec![30, 40]),
        other => panic!("unexpected {:?}", other),
    }
}

fn parent_at(indent: usize, kind: ParentKind, accepts_same_indent: bool) -> DeferredParent<'static> {
    DeferredParent {
        shape: ParentShape {
            start: 0,
            slot: ParentSlot { owner_start: None, kind, indent },
            indent,
            accepts_same_indent,
            established_content_mark: None,
        },
        arms: &[],
    }
}

fn item(start: usize, indent: usize) -> Node {
    Node::Sequence(SequenceItem {
        span: span(start, start + 2),
        indent,
        value: None,
        block: None,
        children: vec![],
    })
}

fn output(start: usize, column: usize) -> Node {
    Node::Output(OutputAction { span: span(start, start + 5), column, width: None, trims_left: false })
}

fn control(start: usize, render_indent: Option<usize>) -> Node {
    Node::Control(ControlRegion {
        kind: ControlKind::If,
        span: span(start, start + 9),
        branches: vec![],
        render_indent,
    })
}

#[test]
fn deeper_nodes_belong_inside_and_shallower_ones_do_not() {
    let parent = parent_at(2, ParentKind::Entry, true);
    assert!(deferred_node_belongs_inside(&entry(0, 4, vec![]), &parent));
    assert!(!deferred_node_belongs_inside(&entry(0, 2, vec![]), &parent));
    assert!(deferred_node_belongs_inside(&scalar(0, 3), &parent));
    let shallow_line = Node::Scalar(ScalarLine {
        span: span(0, 3),
        indent: 2,
        content: ScalarParts { span: span(0, 3), parts: vec![] },
    });
    assert!(!deferred_node_belongs_inside(&shallow_line, &parent));
    assert!(deferred_node_belongs_inside(&output(0, 6), &parent));
    assert!(!deferred_node_belongs_inside(&output(0, 0), &parent));
    assert!(deferred_node_belongs_inside(&control(0, Some(4)), &parent));
    assert!(!deferred_node_belongs_inside(&control(0, None), &parent));
    assert!(deferred_node_belongs_inside(&Node::Comment(Comment { span: span(0, 4) }), &parent));
    let opaque = Node::Opaque(OpaqueNode { span: span(0, 4), kind: OpaqueKind::Other });
    assert!(deferred_node_belongs_inside(&opaque, &parent));
}

#[test]
fn same_indent_content_belongs_only_to_an_accepting_entry() {
    let accepting = parent_at(2, ParentKind::Entry, true);
    let closed = parent_at(2, ParentKind::Entry, false);
    let item_parent = parent_at(2, ParentKind::Item, true);
    assert!(deferred_node_belongs_inside(&item(0, 2), &accepting));
    assert!(!deferred_node_belongs_inside(&item(0, 2), &closed));
    assert!(!deferred_node_belongs_inside(&item(0, 2), &item_parent));
    assert!(deferred_node_belongs_inside(&output(0, 2), &accepting));
    assert!(!deferred_node_belongs_inside(&output(0, 2), &item_parent));
    assert!(deferred_node_belongs_inside(&control(0, Some(2)), &accepting));
    assert!(!deferred_node_belongs_inside(&control(0, Some(2)), &closed));
}

#[test]
fn a_batch_belongs_inside_only_when_it_renders_and_every_node_fits() {
    let parent = parent_at(2, ParentKind::Entry, false);
    let comment = Node::Comment(Comment { span: span(0, 4) });
    let deep = scalar(10, 12);
    let shallow = entry(20, 0, vec![]);
    assert!(!parent_contains_batch(&parent, &[]));
    assert!(!parent_contains_batch(&parent, &[&comment]));
    assert!(parent_contains_batch(&parent, &[&comment, &deep]));
    assert!(!parent_contains_batch(&parent, &[&deep, &shallow]));
}

/// `a:` (0) holding an `if` (10..100) whose first branch holds `b:` (25,
/// indent 2) and whose second branch holds a line (65, indent 4) and
/// `c:` (70, indent 0).
fn adopting_document(kind: ControlKind) -> Vec<Node> {
    let region = Node::Control(ControlRegion {
        kind,
        span: span(10, 100),
        branches: vec![
            ControlBranch { header: span(10, 20), body: vec![entry(25, 2, vec![])] },
            ControlBranch { header: span(50, 60), body: vec![scalar(65, 66), entry(70, 0, vec![])] },
        ],
        render_indent: Some(2),
    });
    vec![entry(0, 0, vec![region])]
}

fn region_of(nodes: &[Node]) -> &ControlRegion {
    match &nodes[0] {
        Node::Mapping(a) => match &a.children[0] {
            Node::Control(region) => region,
            _ => panic!("expected a control region"),
        },
        _ => panic!("expected a mapping entry"),
    }
}

#[test]
fn a_later_if_branch_defers_what_renders_inside_the_adopted_container() {
    let nodes = adopting_document(ControlKind::If);
    let plan = collect_adoption_plan(&nodes);
    let shells: HashMap<usize, Vec<ParentShellArm>> = HashMap::new();
    let region = region_of(&nodes);
    let adopted = vec![Adopted {
        view: NodeView::plain(&region.branches[0].body[0]),
        defer_window: SourceWindow::all(),
    }];
    let views = vec![
        NodeView::plain(&region.branches[1].body[0]),
        NodeView::plain(&region.branches[1].body[1]),
    ];
    let steps = branch_steps(region, 1, &adopted, views, Vec::new(), &plan, &shells);
    assert_eq!(steps.len(), 2);
    match &steps[0] {
        BranchStep::Deferred(batch) => {
            assert_eq!(starts(&batch.nodes), vec![65]);
            assert_eq!(batch.chain.len(), 1);
            assert_eq!(batch.chain[0].shape.start, 25);
            assert_eq!(batch.window, SourceWindow::bounded(60, 100));
            assert_eq!(batch.defer_end, Some(100));
            assert_eq!(batch.omitted_control, Some(10));
            assert!(batch.resolved_chains.is_empty());
        }
        BranchStep::Direct(_) => panic!("expected a deferred batch"),
    }
    match &steps[1] {
        BranchStep::Direct(direct) => {
            assert_eq!(direct.len(), 1);
            assert_eq!(direct[0].node.span_start(), 70);
        }
        BranchStep::Deferred(_) => panic!("expected a direct step"),
    }
}

#[test]
fn first_branches_and_other_kinds_evaluate_every_node_in_place() {
    for (kind, index) in [(ControlKind::If, 0usize), (ControlKind::With, 1), (ControlKind::Range, 1)] {
        let nodes = adopting_document(kind);
        let plan = collect_adoption_plan(&nodes);
        let shells: HashMap<usize, Vec<ParentShellArm>> = HashMap::new();
        let region = region_of(&nodes);
        let adopted = vec![Adopted {
            view: NodeView::plain(&region.branches[0].body[0]),
            defer_window: SourceWindow::all(),
        }];
        let views = vec![
            NodeView::plain(&region.branches[1].body[0]),
            NodeView::plain(&region.branches[1].body[1]),
        ];
        let steps = branch_steps(region, index, &adopted, views, Vec::new(), &plan, &shells);
        assert_eq!(steps.len(), 1);
        match &steps[0] {
            BranchStep::Direct(direct) => {
                let at: Vec<usize> = direct.iter().map(|v| v.node.span_start()).collect();
                assert_eq!(at, vec![65, 70]);
            }
            BranchStep::Deferred(_) => panic!("expected one direct step"),
        }
    }
}

#[test]
fn without_an_adopted_container_escaped_batches_still_take_their_place() {
    let nodes = adopting_document(ControlKind::If);
    let plan = collect_adoption_plan(&nodes);
    let shells: HashMap<usize, Vec<ParentShellArm>> = HashMap::new();
    let region = region_of(&nodes);
    let early = scalar(62, 63);
    let escaped = vec![DeferredNodes {
        chain: Vec::new(),
        resolved_chains: Vec::new(),
        nodes: vec![&early],
        window: SourceWindow::bounded(60, 100),
        defer_end: Some(100),
        omitted_control: Some(10),
    }];
    let views = vec![
        NodeView::plain(&region.branches[1].body[0]),
        NodeView::plain(&region.branches[1].body[1]),
    ];
    let steps = branch_steps(region, 1, &[], views, escaped, &plan, &shells);
    assert_eq!(steps.len(), 2);
    assert!(matches!(&steps[0], BranchStep::Deferred(batch) if starts(&batch.nodes) == vec![62]));
    assert!(matches!(&steps[1], BranchStep::Direct(direct) if direct.len() == 2));
}

fn batch_of<'n>(nodes: Vec<&'n Node>, window: SourceWindow, defer_end: Option<usize>) -> DeferredNodes<'n> {
    DeferredNodes {
        chain: Vec::new(),
        resolved_chains: Vec::new(),
        nodes,
        window,
        defer_end,
        omitted_control: None,
    }
}

#[test]
fn a_batch_leaves_its_descendants_between_window_and_deferral_bound() {
    let nodes = document();
    let plan = collect_adoption_plan(&nodes);
    let shells: HashMap<usize, Vec<ParentShellArm>> = HashMap::new();
    let batch = batch_of(vec![&nodes[0]], SourceWindow::bounded(0, 25), Some(55));
    let residual = deferred_residual(&batch, &plan, &shells);
    assert_eq!(residual.len(), 1);
    assert_eq!(starts(&residual[0].nodes), vec![30, 50]);
    assert_eq!(residual[0].window, SourceWindow::bounded(25, 55));
    assert_eq!(residual[0].chain.len(), 2);
    assert_eq!(residual[0].chain[1].shape.start, 10);
}

#[test]
fn a_batch_bounded_within_its_window_leaves_nothing() {
    let nodes = document();
    let plan = collect_adoption_plan(&nodes);
    let shells: HashMap<usize, Vec<ParentShellArm>> = HashMap::new();
    let closed = batch_of(vec![&nodes[0]], SourceWindow::bounded(0, 25), Some(25));
    assert!(deferred_residual(&closed, &plan, &shells).is_empty());
    let open = batch_of(vec![&nodes[0]], SourceWindow::all(), None);
    assert!(deferred_residual(&open, &plan, &shells).is_empty());
}

#[test]
fn step_residuals_gather_every_deferred_step() {
    let nodes = document();
    let plan = collect_adoption_plan(&nodes);
    let shells: HashMap<usize, Vec<ParentShellArm>> = HashMap::new();
    let steps = vec![
        BranchStep::Direct(vec![NodeView::plain(&nodes[0])]),
        BranchStep::Deferred(batch_of(vec![&nodes[0]], SourceWindow::bounded(0, 25), None)),
    ];
    let residual = branch_step_residuals(&steps, &plan, &shells);
    assert_eq!(residual.len(), 2);
    assert_eq!(starts(&residual[0].nodes), vec![60]);
    assert_eq!(starts(&residual[1].nodes), vec![30, 50]);
    assert_eq!(residual[1].defer_end, None);
}

fn stated_output(start: usize, column: usize, width: usize) -> Node {
    Node::Output(OutputAction {
        span: span(start, start + 5),
        column,
        width: Some(width),
        trims_left: false,
    })
}

fn region_with(body: Vec<Node>) -> Node {
    Node::Control(ControlRegion {
        kind: ControlKind::If,
        span: span(0, 50),
        branches: vec![ControlBranch { header: span(0, 5), body }],
        render_indent: None,
    })
}

#[test]
fn hung_children_belong_inside_only_when_they_render_deeper() {
    let kind = ParentKind::Entry;
    assert!(node_belongs_inside(&entry(0, 4, vec![]), kind, 2, true));
    assert!(!node_belongs_inside(&entry(0, 2, vec![]), kind, 2, true));
    assert!(node_belongs_inside(&item(0, 2), kind, 2, true));
    assert!(!node_belongs_inside(&item(0, 2), kind, 2, false));
    assert!(!node_belongs_inside(&item(0, 2), ParentKind::Item, 2, true));
    assert!(!node_belongs_inside(&output(0, 0), kind, 2, true));
    assert!(node_belongs_inside(&output(0, 6), kind, 2, true));
    assert!(node_belongs_inside(&stated_output(0, 0, 2), kind, 2, true));
    assert!(node_belongs_inside(&region_with(vec![scalar(10, 12)]), kind, 2, true));
    assert!(!node_belongs_inside(&region_with(vec![scalar(10, 12), entry(20, 0, vec![])]), kind, 2, true));
    assert!(node_belongs_inside(&region_with(vec![]), kind, 2, true));
    assert!(node_belongs_inside(&Node::Comment(Comment { span: span(0, 3) }), kind, 2, true));
}

#[test]
fn structural_children_split_off_what_layout_hung_too_deep() {
    let container = entry(0, 0, vec![entry(10, 2, vec![]), scalar(20, 22), entry(30, 0, vec![])]);
    let view = NodeView::plain(&container);
    let (inside, outside) = split_structural_children(view, ParentKind::Entry, 0, true);
    let inside_starts: Vec<usize> = inside.iter().map(|v| v.node.span_start()).collect();
    let outside_starts: Vec<usize> = outside.iter().map(|v| v.node.span_start()).collect();
    assert_eq!(inside_starts, vec![10, 20]);
    assert_eq!(outside_starts, vec![30]);
    assert!(inside.iter().chain(outside.iter()).all(|v| v.window == SourceWindow::all()));
}

#[test]
fn a_reversed_window_that_cuts_no_child_defers_nothing() {
    let nodes = document();
    let plan = collect_adoption_plan(&nodes);
    let shells: HashMap<usize, Vec<ParentShellArm>> = HashMap::new();
    let mut chain = Vec::new();
    let mut out = Vec::new();
    let window = SourceWindow { start: 25, end: Some(20) };
    collect_deferred(&nodes[0], window, None, &plan, &shells, &mut chain, &mut out);
    assert!(out.is_empty());
    assert!(chain.is_empty());
}
