//! Whether deferred content renders inside a parent container: a node by
//! the indent it renders at, a batch when it renders something and every
//! node of it does, and the children layout recovery hung under a container
//! that really belong to it.

use vstd::prelude::*;

use crate::adoption::{ParentKind, ParentShape};
use crate::deferred::{scope_children, viewed_nodes, DeferredParent, NodeView};
use crate::syntax::{ControlBranch, ControlRegion, Node};

verus! {

// ---------------------------------------------------------------------
// Whether deferred nodes render inside a parent
// ---------------------------------------------------------------------

/// Whether content rendered at `indent` belongs inside the container of
/// `shape`: deeper content always does; content at the container's own
/// indent only when the container is a mapping entry that accepts it.
pub open spec fn indent_inside(indent: usize, shape: ParentShape) -> bool {
    ||| indent > shape.indent
    ||| (indent == shape.indent && shape.slot.kind == ParentKind::Entry && shape.accepts_same_indent)
}

/// Whether a deferred node belongs inside the container of `shape`: entries
/// and scalar lines by their own deeper indent, sequence items, controls
/// and outputs by the indent they render at (a control that renders
/// nothing does not), comments and opaque spans always.
pub open spec fn node_inside(node: Node, shape: ParentShape) -> bool {
    match node {
        Node::Mapping(entry) => entry.indent > shape.indent,
        Node::Sequence(item) => indent_inside(item.indent, shape),
        Node::Scalar(line) => line.indent > shape.indent,
        Node::Control(region) => region.render_indent matches Some(indent) && indent_inside(indent, shape),
        Node::Output(action) => indent_inside(action.rendered_indent(), shape),
        Node::Comment(_) | Node::Opaque(_) => true,
    }
}

/// Whether a node renders something (it is neither a comment nor opaque).
pub open spec fn is_rendered(node: Node) -> bool {
    !(node is Comment || node is Opaque)
}

/// Whether a batch belongs inside the container of `shape`: it renders
/// something, and every node of it belongs inside.
pub open spec fn batch_inside(nodes: Seq<&Node>, shape: ParentShape) -> bool {
    &&& exists|i: int| 0 <= i < nodes.len() && is_rendered(*#[trigger] nodes[i])
    &&& forall|i: int| 0 <= i < nodes.len() ==> node_inside(*#[trigger] nodes[i], shape)
}

/// Whether content rendered at `indent` belongs inside `parent`.
fn renders_inside(indent: usize, parent: &DeferredParent) -> (inside: bool)
    ensures
        inside == indent_inside(indent, parent.shape),
{
    indent > parent.indent() || (indent == parent.indent() && parent.shape.kind() == ParentKind::Entry
        && parent.accepts_same_indent())
}

/// Whether a deferred node belongs inside `parent` (see [`node_inside`]).
pub fn deferred_node_belongs_inside(node: &Node, parent: &DeferredParent) -> (inside: bool)
    ensures
        inside == node_inside(*node, parent.shape),
{
    match node {
        Node::Mapping(entry) => entry.indent > parent.indent(),
        Node::Sequence(item) => renders_inside(item.indent, parent),
        Node::Scalar(line) => line.indent > parent.indent(),
        Node::Control(region) => match region.render_indent {
            Some(indent) => renders_inside(indent, parent),
            None => false,
        },
        Node::Output(action) => renders_inside(action.render_indent(), parent),
        Node::Comment(_) | Node::Opaque(_) => true,
    }
}

/// Whether a whole deferred batch belongs inside `parent` (see
/// [`batch_inside`]); a batch of only comments and opaque spans does not.
pub fn parent_contains_batch(parent: &DeferredParent, nodes: &[&Node]) -> (inside: bool)
    ensures
        inside == batch_inside(nodes@, parent.shape),
{
    let mut rendered = false;
    let mut i: usize = 0;
    while i < nodes.len()
        invariant
            i <= nodes@.len(),
            rendered <==> exists|j: int| 0 <= j < i && is_rendered(*#[trigger] nodes@[j]),
            forall|j: int| 0 <= j < i ==> node_inside(*#[trigger] nodes@[j], parent.shape),
        decreases nodes@.len() - i,
    {
        let node = nodes[i];
        if !deferred_node_belongs_inside(node, parent) {
            return false;
        }
        match node {
            Node::Comment(_) | Node::Opaque(_) => {},
            _ => {
                rendered = true;
            },
        }
        i += 1;
    }
    rendered
}

// ---------------------------------------------------------------------
// Structural children of a container
// ---------------------------------------------------------------------

/// Whether a node hung under a container by layout recovery really belongs
/// inside it: entries and lines deeper than the container; sequence items
/// deeper, or at the indent of an entry that accepts them; a control when
/// every node of its branches does; an output deeper by its column or with
/// a stated width; comments and opaque spans always.
pub open spec fn belongs_inside(node: Node, kind: ParentKind, indent: usize, accepts: bool) -> bool
    decreases node, 2nat,
{
    match node {
        Node::Mapping(entry) => entry.indent > indent,
        Node::Sequence(item) => item.indent > indent || (item.indent == indent && kind == ParentKind::Entry
            && accepts),
        Node::Scalar(line) => line.indent > indent,
        Node::Control(region) => branches_belong(region.branches@, kind, indent, accepts),
        Node::Output(action) => action.column > indent || action.width is Some,
        Node::Comment(_) | Node::Opaque(_) => true,
    }
}

/// Whether every node of `nodes` belongs inside the container.
pub open spec fn list_belongs(nodes: Seq<Node>, kind: ParentKind, indent: usize, accepts: bool) -> bool
    decreases nodes, 1nat,
{
    nodes.len() == 0 || (list_belongs(nodes.drop_last(), kind, indent, accepts) && belongs_inside(
        nodes.last(),
        kind,
        indent,
        accepts,
    ))
}

/// Whether every node of every branch body belongs inside the container.
pub open spec fn branches_belong(branches: Seq<ControlBranch>, kind: ParentKind, indent: usize, accepts: bool) -> bool
    decreases branches, 0nat,
{
    branches.len() == 0 || (branches_belong(branches.drop_last(), kind, indent, accepts) && list_belongs(
        branches.last().body@,
        kind,
        indent,
        accepts,
    ))
}

/// Lines say by their own indent whether they belong: an entry, a sequence
/// item or a scalar line deeper than the container always belongs inside
/// it, whatever the container's kind; one shallower than the container
/// never does; an entry or a scalar line at the container's own indent
/// does not either. An output deeper by its column, or with a stated
/// width, belongs; comments and opaque spans always do.
pub proof fn lemma_lines_belong_by_indent(node: Node, kind: ParentKind, indent: usize, accepts: bool)
    ensures
        node matches Node::Mapping(entry) ==> (belongs_inside(node, kind, indent, accepts) <==> entry.indent > indent),
        node matches Node::Scalar(line) ==> (belongs_inside(node, kind, indent, accepts) <==> line.indent > indent),
        node matches Node::Sequence(item) && item.indent > indent ==> belongs_inside(node, kind, indent, accepts),
        node matches Node::Sequence(item) && item.indent < indent ==> !belongs_inside(node, kind, indent, accepts),
        node matches Node::Sequence(item) && item.indent == indent ==> (belongs_inside(node, kind, indent, accepts)
            <==> (kind == ParentKind::Entry && accepts)),
        node matches Node::Output(action) && (action.column > indent || action.width is Some) ==> belongs_inside(
            node,
            kind,
            indent,
            accepts,
        ),
        node is Comment || node is Opaque ==> belongs_inside(node, kind, indent, accepts),
{
}

/// Belonging only grows as the container gets shallower, as it starts to
/// accept same-indent items, and from an item container to an entry: a
/// node inside a container at `inner` is inside one at any `outer` at most
/// as deep.
pub proof fn lemma_belongs_monotone(
    node: Node,
    kind: ParentKind,
    outer_kind: ParentKind,
    outer: usize,
    inner: usize,
    accepts: bool,
    outer_accepts: bool,
)
    requires
        outer <= inner,
        kind == ParentKind::Entry ==> outer_kind == ParentKind::Entry,
        accepts ==> outer_accepts,
        belongs_inside(node, kind, inner, accepts),
    ensures
        belongs_inside(node, outer_kind, outer, outer_accepts),
    decreases node, 2nat,
{
    if let Node::Control(region) = node {
        lemma_branches_belong_monotone(region.branches@, kind, outer_kind, outer, inner, accepts, outer_accepts);
    }
}

proof fn lemma_list_belongs_monotone(
    nodes: Seq<Node>,
    kind: ParentKind,
    outer_kind: ParentKind,
    outer: usize,
    inner: usize,
    accepts: bool,
    outer_accepts: bool,
)
    requires
        outer <= inner,
        kind == ParentKind::Entry ==> outer_kind == ParentKind::Entry,
        accepts ==> outer_accepts,
        list_belongs(nodes, kind, inner, accepts),
    ensures
        list_belongs(nodes, outer_kind, outer, outer_accepts),
    decreases nodes, 1nat,
{
    if nodes.len() > 0 {
        lemma_list_belongs_monotone(nodes.drop_last(), kind, outer_kind, outer, inner, accepts, outer_accepts);
        lemma_belongs_monotone(nodes.last(), kind, outer_kind, outer, inner, accepts, outer_accepts);
    }
}

proof fn lemma_branches_belong_monotone(
    branches: Seq<ControlBranch>,
    kind: ParentKind,
    outer_kind: ParentKind,
    outer: usize,
    inner: usize,
    accepts: bool,
    outer_accepts: bool,
)
    requires
        outer <= inner,
        kind == ParentKind::Entry ==> outer_kind == ParentKind::Entry,
        accepts ==> outer_accepts,
        branches_belong(branches, kind, inner, accepts),
    ensures
        branches_belong(branches, outer_kind, outer, outer_accepts),
    decreases branches, 0nat,
{
    if branches.len() > 0 {
        lemma_branches_belong_monotone(branches.drop_last(), kind, outer_kind, outer, inner, accepts, outer_accepts);
        lemma_list_belongs_monotone(branches.last().body@, kind, outer_kind, outer, inner, accepts, outer_accepts);
    }
}

/// A control belongs exactly when every node of every branch body does.
pub proof fn lemma_control_belongs_iff_all_nodes(region: ControlRegion, kind: ParentKind, indent: usize, accepts: bool)
    ensures
        belongs_inside(Node::Control(region), kind, indent, accepts) <==> forall|b: int, k: int|
            0 <= b < region.branches@.len() && 0 <= k < region.branches@[b].body@.len() ==> belongs_inside(
                #[trigger] region.branches@[b].body@[k],
                kind,
                indent,
                accepts,
            ),
{
    lemma_branches_belong_all(region.branches@, kind, indent, accepts);
}

proof fn lemma_list_belongs_all(nodes: Seq<Node>, kind: ParentKind, indent: usize, accepts: bool)
    ensures
        list_belongs(nodes, kind, indent, accepts) <==> forall|k: int| 0 <= k < nodes.len() ==> belongs_inside(
            #[trigger] nodes[k],
            kind,
            indent,
            accepts,
        ),
    decreases nodes.len(),
{
    if nodes.len() > 0 {
        let d = nodes.drop_last();
        lemma_list_belongs_all(d, kind, indent, accepts);
        assert forall|k: int| 0 <= k < d.len() implies d[k] == nodes[k] by {}
        if forall|k: int| 0 <= k < nodes.len() ==> belongs_inside(#[trigger] nodes[k], kind, indent, accepts) {
            assert(belongs_inside(nodes[nodes.len() - 1], kind, indent, accepts));
            assert forall|k: int| 0 <= k < d.len() implies belongs_inside(#[trigger] d[k], kind, indent, accepts) by {
                assert(belongs_inside(nodes[k], kind, indent, accepts));
            }
        }
    }
}

proof fn lemma_branches_belong_all(branches: Seq<ControlBranch>, kind: ParentKind, indent: usize, accepts: bool)
    ensures
        branches_belong(branches, kind, indent, accepts) <==> forall|b: int, k: int|
            0 <= b < branches.len() && 0 <= k < branches[b].body@.len() ==> belongs_inside(
                #[trigger] branches[b].body@[k],
                kind,
                indent,
                accepts,
            ),
    decreases branches.len(),
{
    if branches.len() > 0 {
        let d = branches.drop_last();
        lemma_branches_belong_all(d, kind, indent, accepts);
        let last = branches.len() - 1;
        lemma_list_belongs_all(branches[last].body@, kind, indent, accepts);
        if forall|b: int, k: int|
            0 <= b < branches.len() && 0 <= k < branches[b].body@.len() ==> belongs_inside(
                #[trigger] branches[b].body@[k],
                kind,
                indent,
                accepts,
            ) {
            assert forall|b: int, k: int| 0 <= b < d.len() && 0 <= k < d[b].body@.len() implies belongs_inside(
                #[trigger] d[b].body@[k],
                kind,
                indent,
                accepts,
            ) by {
                assert(d[b] == branches[b]);
                assert(belongs_inside(branches[b].body@[k], kind, indent, accepts));
            }
            assert forall|k: int| 0 <= k < branches[last].body@.len() implies belongs_inside(
                #[trigger] branches[last].body@[k],
                kind,
                indent,
                accepts,
            ) by {
                assert(belongs_inside(branches[last].body@[k], kind, indent, accepts));
            }
        }
        if branches_belong(branches, kind, indent, accepts) {
            assert forall|b: int, k: int|
                0 <= b < branches.len() && 0 <= k < branches[b].body@.len() implies belongs_inside(
                #[trigger] branches[b].body@[k],
                kind,
                indent,
                accepts,
            ) by {
                if b < last {
                    assert(d[b] == branches[b]);
                    assert(belongs_inside(d[b].body@[k], kind, indent, accepts));
                }
            }
        }
    }
}

/// Whether `node` belongs inside a container of kind `kind` at `indent`
/// (see [`belongs_inside`]).
pub fn node_belongs_inside(node: &Node, kind: ParentKind, indent: usize, accepts_same_indent: bool) -> (inside: bool)
    ensures
        inside == belongs_inside(*node, kind, indent, accepts_same_indent),
    decreases node, 2nat,
{
    match node {
        Node::Mapping(entry) => entry.indent > indent,
        Node::Sequence(item) => item.indent > indent || (item.indent == indent && kind == ParentKind::Entry
            && accepts_same_indent),
        Node::Scalar(line) => line.indent > indent,
        Node::Control(region) => region_belongs_inside(region, kind, indent, accepts_same_indent),
        Node::Output(action) => action.column > indent || action.width.is_some(),
        Node::Comment(_) | Node::Opaque(_) => true,
    }
}

/// Whether every node of `nodes` belongs inside the container.
fn nodes_belong_inside(nodes: &Vec<Node>, kind: ParentKind, indent: usize, accepts_same_indent: bool) -> (inside: bool)
    ensures
        inside == list_belongs(nodes@, kind, indent, accepts_same_indent),
    decreases nodes@, 1nat,
{
    let mut i: usize = 0;
    while i < nodes.len()
        invariant
            i <= nodes@.len(),
            list_belongs(nodes@.take(i as int), kind, indent, accepts_same_indent),
        decreases nodes@.len() - i,
    {
        proof {
            assert(nodes@.take(i + 1).drop_last() =~= nodes@.take(i as int));
            assert(nodes@.take(i + 1).last() == nodes@[i as int]);
        }
        if !node_belongs_inside(&nodes[i], kind, indent, accepts_same_indent) {
            proof {
                if list_belongs(nodes@, kind, indent, accepts_same_indent) {
                    lemma_list_belongs_prefix(nodes@, i + 1, kind, indent, accepts_same_indent);
                }
            }
            return false;
        }
        i += 1;
    }
    proof {
        assert(nodes@.take(nodes@.len() as int) =~= nodes@);
    }
    true
}

/// Whether every branch body of `region` belongs inside the container.
fn region_belongs_inside(region: &ControlRegion, kind: ParentKind, indent: usize, accepts_same_indent: bool) -> (inside: bool)
    ensures
        inside == branches_belong(region.branches@, kind, indent, accepts_same_indent),
    decreases region, 0nat,
{
    let mut j: usize = 0;
    while j < region.branches.len()
        invariant
            j <= region.branches@.len(),
            branches_belong(region.branches@.take(j as int), kind, indent, accepts_same_indent),
        decreases region.branches@.len() - j,
    {
        proof {
            assert(region.branches@.take(j + 1).drop_last() =~= region.branches@.take(j as int));
            assert(region.branches@.take(j + 1).last() == region.branches@[j as int]);
        }
        if !nodes_belong_inside(&region.branches[j].body, kind, indent, accepts_same_indent) {
            proof {
                if branches_belong(region.branches@, kind, indent, accepts_same_indent) {
                    lemma_branches_belong_prefix(region.branches@, j + 1, kind, indent, accepts_same_indent);
                }
            }
            return false;
        }
        j += 1;
    }
    proof {
        assert(region.branches@.take(region.branches@.len() as int) =~= region.branches@);
    }
    true
}

/// A list belongs only if each of its prefixes does.
proof fn lemma_list_belongs_prefix(nodes: Seq<Node>, k: int, kind: ParentKind, indent: usize, accepts: bool)
    requires
        0 <= k <= nodes.len(),
        list_belongs(nodes, kind, indent, accepts),
    ensures
        list_belongs(nodes.take(k), kind, indent, accepts),
    decreases nodes.len() - k,
{
    if k < nodes.len() {
        lemma_list_belongs_prefix(nodes, k + 1, kind, indent, accepts);
        assert(nodes.take(k + 1).drop_last() =~= nodes.take(k));
    } else {
        assert(nodes.take(k) =~= nodes);
    }
}

/// Branches belong only if each of their prefixes does.
proof fn lemma_branches_belong_prefix(
    branches: Seq<ControlBranch>,
    k: int,
    kind: ParentKind,
    indent: usize,
    accepts: bool,
)
    requires
        0 <= k <= branches.len(),
        branches_belong(branches, kind, indent, accepts),
    ensures
        branches_belong(branches.take(k), kind, indent, accepts),
    decreases branches.len() - k,
{
    if k < branches.len() {
        lemma_branches_belong_prefix(branches, k + 1, kind, indent, accepts);
        assert(branches.take(k + 1).drop_last() =~= branches.take(k));
    } else {
        assert(branches.take(k) =~= branches);
    }
}

/// The children of a view that evaluate in its window.
pub open spec fn scoped_children<'n>(view: NodeView<'n>) -> Seq<Node> {
    match *view.node {
        Node::Mapping(entry) => scope_children(entry.children@, view.window, view.omitted_control),
        Node::Sequence(item) => scope_children(item.children@, view.window, view.omitted_control),
        _ => Seq::empty(),
    }
}

/// The nodes of `nodes` that belong inside the container (`inside`), or
/// those that do not, in order.
pub open spec fn kept_nodes(nodes: Seq<Node>, kind: ParentKind, indent: usize, accepts: bool, inside: bool) -> Seq<Node>
    decreases nodes.len(),
{
    if nodes.len() == 0 {
        Seq::empty()
    } else {
        let rest = kept_nodes(nodes.drop_last(), kind, indent, accepts, inside);
        if belongs_inside(nodes.last(), kind, indent, accepts) == inside {
            rest.push(nodes.last())
        } else {
            rest
        }
    }
}

/// Split a container's in-scope children into its real children and the
/// nodes layout recovery hung under it (see [`belongs_inside`]); both keep
/// source order and the view's bounds.
pub fn split_structural_children<'n>(
    view: NodeView<'n>,
    kind: ParentKind,
    indent: usize,
    accepts_same_indent: bool,
) -> (split: (Vec<NodeView<'n>>, Vec<NodeView<'n>>))
    ensures
        viewed_nodes(split.0@) == kept_nodes(scoped_children(view), kind, indent, accepts_same_indent, true),
        viewed_nodes(split.1@) == kept_nodes(scoped_children(view), kind, indent, accepts_same_indent, false),
        forall|j: int|
            0 <= j < split.0@.len() ==> (#[trigger] split.0@[j]).window == view.window
                && split.0@[j].omitted_control == view.omitted_control && split.0@[j].control_cursor == 0,
        forall|j: int|
            0 <= j < split.1@.len() ==> (#[trigger] split.1@[j]).window == view.window
                && split.1@[j].omitted_control == view.omitted_control && split.1@[j].control_cursor == 0,
{
    let children = view.in_scope_children();
    let ghost all = viewed_nodes(children@);
    let mut inside: Vec<NodeView<'n>> = Vec::new();
    let mut outside: Vec<NodeView<'n>> = Vec::new();
    let mut i: usize = 0;
    while i < children.len()
        invariant
            i <= children@.len(),
            all == viewed_nodes(children@),
            viewed_nodes(inside@) == kept_nodes(all.take(i as int), kind, indent, accepts_same_indent, true),
            viewed_nodes(outside@) == kept_nodes(all.take(i as int), kind, indent, accepts_same_indent, false),
            forall|j: int|
                0 <= j < children@.len() ==> (#[trigger] children@[j]).window == view.window
                    && children@[j].omitted_control == view.omitted_control && children@[j].control_cursor == 0,
            forall|j: int|
                0 <= j < inside@.len() ==> (#[trigger] inside@[j]).window == view.window
                    && inside@[j].omitted_control == view.omitted_control && inside@[j].control_cursor == 0,
            forall|j: int|
                0 <= j < outside@.len() ==> (#[trigger] outside@[j]).window == view.window
                    && outside@[j].omitted_control == view.omitted_control && outside@[j].control_cursor == 0,
        decreases children@.len() - i,
    {
        let child = children[i];
        proof {
            assert(all.take(i + 1).drop_last() =~= all.take(i as int));
            assert(all.take(i + 1).last() == *child.node);
        }
        let ghost before_inside = inside@;
        let ghost before_outside = outside@;
        if node_belongs_inside(child.node, kind, indent, accepts_same_indent) {
            inside.push(child);
            proof {
                assert(viewed_nodes(inside@) =~= viewed_nodes(before_inside).push(*child.node));
            }
        } else {
            outside.push(child);
            proof {
                assert(viewed_nodes(outside@) =~= viewed_nodes(before_outside).push(*child.node));
            }
        }
        i += 1;
    }
    proof {
        assert(all.take(children@.len() as int) =~= all);
    }
    (inside, outside)
}

} // verus!
