//! Layout facts read off the templated-YAML tree: where a node's own text
//! ends, where a container's first real content starts, which inline
//! regions a subtree holds, and how a path of steps leads from a container
//! to a control region and into one of its branch windows.

use vstd::prelude::*;

use crate::syntax::{ControlBranch, ControlRegion, Node, OpaqueKind, ScalarPart, ScalarParts, Span};
use crate::window::SourceWindow;

verus! {

/// One step of the tree path from an escaped container down to a control.
#[derive(Clone, Copy, Debug, PartialEq, Eq, Structural)]
pub enum NodePathStep {
    /// The child at this position of a mapping entry or sequence item.
    Child(usize),
    /// The child at `child` of branch `branch` of a control region.
    Branch { branch: usize, child: usize },
}

// ---------------------------------------------------------------------
// Ends of a node's own text
// ---------------------------------------------------------------------

/// The larger of two positions.
pub open spec fn max_pos(a: usize, b: usize) -> usize {
    if a >= b {
        a
    } else {
        b
    }
}

/// The largest of `end` and the ends of `parts`.
pub open spec fn parts_end_from(end: usize, parts: Seq<ScalarPart>) -> usize
    decreases parts.len(),
{
    if parts.len() == 0 {
        end
    } else {
        let last = match parts.last() {
            ScalarPart::Text(span) => span.end,
            ScalarPart::Hole(span) => span.end,
        };
        max_pos(parts_end_from(end, parts.drop_last()), last)
    }
}

/// Where an inline scalar's text ends: its span or its last piece.
pub open spec fn parts_end(parts: ScalarParts) -> usize {
    parts_end_from(parts.span.end, parts.parts@)
}

/// Where an inline scalar's text ends: its span or its last piece.
pub fn scalar_parts_end(parts: &ScalarParts) -> (end: usize)
    ensures
        end == parts_end(*parts),
{
    let mut end = parts.span.end;
    let mut i: usize = 0;
    while i < parts.parts.len()
        invariant
            i <= parts.parts@.len(),
            end == parts_end_from(parts.span.end, parts.parts@.take(i as int)),
        decreases parts.parts@.len() - i,
    {
        let part_end = match parts.parts[i] {
            ScalarPart::Text(span) => span.end,
            ScalarPart::Hole(span) => span.end,
        };
        if part_end > end {
            end = part_end;
        }
        proof {
            assert(parts.parts@.take(i + 1).drop_last() =~= parts.parts@.take(i as int));
        }
        i += 1;
    }
    proof {
        assert(parts.parts@.take(parts.parts@.len() as int) =~= parts.parts@);
    }
    end
}

/// Where a line's own text ends: its span, its inline value, and its
/// block scalar's header and body.
pub open spec fn own_end(span: Span, value: Option<ScalarParts>, block: Option<crate::syntax::BlockScalar>) -> usize {
    let with_value = match value {
        Some(v) => max_pos(span.end, parts_end(v)),
        None => span.end,
    };
    match block {
        Some(b) => max_pos(max_pos(with_value, b.header.end), b.body.end),
        None => with_value,
    }
}

/// Where a mapping entry's own text ends.
pub fn mapping_own_end(entry: &crate::syntax::MappingEntry) -> (end: usize)
    ensures
        end == own_end(entry.span, entry.value, entry.block),
{
    let mut end = entry.span.end;
    if let Some(value) = &entry.value {
        let e = scalar_parts_end(value);
        if e > end {
            end = e;
        }
    }
    if let Some(block) = &entry.block {
        if block.header.end > end {
            end = block.header.end;
        }
        if block.body.end > end {
            end = block.body.end;
        }
    }
    end
}

/// Where a sequence item's own text ends.
pub fn sequence_own_end(item: &crate::syntax::SequenceItem) -> (end: usize)
    ensures
        end == own_end(item.span, item.value, item.block),
{
    let mut end = item.span.end;
    if let Some(value) = &item.value {
        let e = scalar_parts_end(value);
        if e > end {
            end = e;
        }
    }
    if let Some(block) = &item.block {
        if block.header.end > end {
            end = block.header.end;
        }
        if block.body.end > end {
            end = block.body.end;
        }
    }
    end
}

// ---------------------------------------------------------------------
// Content marks
// ---------------------------------------------------------------------

/// The smaller of two optional positions (`None` is no position).
pub open spec fn min_opt(a: Option<usize>, b: Option<usize>) -> Option<usize> {
    match (a, b) {
        (Some(x), Some(y)) => Some(if x <= y { x } else { y }),
        (Some(x), None) => Some(x),
        (None, _) => b,
    }
}

/// Where `node` first holds content deeper than `indent`: a line or an
/// output rendered deeper, or the earliest such content of a control body.
pub open spec fn node_mark(node: Node, indent: usize) -> Option<usize>
    decreases node, 2nat,
{
    match node {
        Node::Mapping(entry) => if entry.indent > indent { Some(entry.span.start) } else { None },
        Node::Sequence(item) => if item.indent > indent { Some(item.span.start) } else { None },
        Node::Scalar(line) => if line.indent > indent { Some(line.span.start) } else { None },
        Node::Output(action) => if action.rendered_indent() > indent { Some(action.span.start) } else { None },
        Node::Control(region) => branches_mark(region.branches@, indent),
        Node::Comment(_) => None,
        Node::Opaque(_) => None,
    }
}

/// The earliest [`node_mark`] among `nodes`.
pub open spec fn list_mark(nodes: Seq<Node>, indent: usize) -> Option<usize>
    decreases nodes, 1nat,
{
    if nodes.len() == 0 {
        None
    } else {
        min_opt(list_mark(nodes.drop_last(), indent), node_mark(nodes.last(), indent))
    }
}

/// The earliest [`list_mark`] among the bodies of `branches`.
pub open spec fn branches_mark(branches: Seq<ControlBranch>, indent: usize) -> Option<usize>
    decreases branches, 0nat,
{
    if branches.len() == 0 {
        None
    } else {
        min_opt(branches_mark(branches.drop_last(), indent), list_mark(branches.last().body@, indent))
    }
}

/// The smaller of two optional positions.
pub(crate) fn min_option(a: Option<usize>, b: Option<usize>) -> (m: Option<usize>)
    ensures
        m == min_opt(a, b),
{
    match (a, b) {
        (Some(x), Some(y)) => Some(if x <= y { x } else { y }),
        (Some(x), None) => Some(x),
        (None, _) => b,
    }
}

/// Where a container first holds content of its own: the earliest child
/// that renders deeper than the container's indent, counting splices and
/// control bodies as well as visible lines.
pub fn established_content_mark(children: &Vec<Node>, container_indent: usize) -> (mark: Option<usize>)
    ensures
        mark == list_mark(children@, container_indent),
    decreases children@, 1nat,
{
    let mut mark: Option<usize> = None;
    let mut i: usize = 0;
    while i < children.len()
        invariant
            i <= children@.len(),
            mark == list_mark(children@.take(i as int), container_indent),
        decreases children@.len() - i,
    {
        let child_mark = match &children[i] {
            Node::Mapping(entry) => if entry.indent > container_indent { Some(entry.span.start) } else { None },
            Node::Sequence(item) => if item.indent > container_indent { Some(item.span.start) } else { None },
            Node::Scalar(line) => if line.indent > container_indent { Some(line.span.start) } else { None },
            Node::Output(action) => if action.render_indent() > container_indent {
                Some(action.span.start)
            } else {
                None
            },
            Node::Control(region) => branches_content_mark(region, container_indent),
            Node::Comment(_) => None,
            Node::Opaque(_) => None,
        };
        proof {
            assert(child_mark == node_mark(children@[i as int], container_indent));
            assert(children@.take(i + 1).drop_last() =~= children@.take(i as int));
            assert(children@.take(i + 1).last() == children@[i as int]);
        }
        mark = min_option(mark, child_mark);
        i += 1;
    }
    proof {
        assert(children@.take(children@.len() as int) =~= children@);
    }
    mark
}

/// The earliest content mark among a region's branch bodies.
fn branches_content_mark(region: &ControlRegion, container_indent: usize) -> (mark: Option<usize>)
    ensures
        mark == branches_mark(region.branches@, container_indent),
    decreases region, 0nat,
{
    let mut mark: Option<usize> = None;
    let mut j: usize = 0;
    while j < region.branches.len()
        invariant
            j <= region.branches@.len(),
            mark == branches_mark(region.branches@.take(j as int), container_indent),
        decreases region.branches@.len() - j,
    {
        let body_mark = established_content_mark(&region.branches[j].body, container_indent);
        proof {
            assert(region.branches@.take(j + 1).drop_last() =~= region.branches@.take(j as int));
            assert(region.branches@.take(j + 1).last() == region.branches@[j as int]);
        }
        mark = min_option(mark, body_mark);
        j += 1;
    }
    proof {
        assert(region.branches@.take(region.branches@.len() as int) =~= region.branches@);
    }
    mark
}

/// The least indent a helper's rendered root starts at, relative to its
/// caller: a line's own indent; a left-trimmed output with no stated width
/// starts at column zero, any other output at the indent it renders at; a
/// control the least among its bodies; comments and opaque spans none.
pub open spec fn root_indent(node: Node) -> Option<usize>
    decreases node, 2nat,
{
    match node {
        Node::Mapping(entry) => Some(entry.indent),
        Node::Sequence(item) => Some(item.indent),
        Node::Scalar(line) => Some(line.indent),
        Node::Control(region) => branches_root_indent(region.branches@),
        Node::Output(action) => if action.width is None && action.trims_left {
            Some(0)
        } else {
            Some(action.rendered_indent())
        },
        Node::Comment(_) | Node::Opaque(_) => None,
    }
}

/// The least [`root_indent`] among `nodes`.
pub open spec fn list_root_indent(nodes: Seq<Node>) -> Option<usize>
    decreases nodes, 1nat,
{
    if nodes.len() == 0 {
        None
    } else {
        min_opt(list_root_indent(nodes.drop_last()), root_indent(nodes.last()))
    }
}

/// The least [`list_root_indent`] among the bodies of `branches`.
pub open spec fn branches_root_indent(branches: Seq<ControlBranch>) -> Option<usize>
    decreases branches, 0nat,
{
    if branches.len() == 0 {
        None
    } else {
        min_opt(branches_root_indent(branches.drop_last()), list_root_indent(branches.last().body@))
    }
}

/// A helper rooted in a line starts at that line's own indent, whatever kind
/// of line it is; a comment or an opaque span gives no root indent; an output
/// gives one always.
pub proof fn lemma_line_root_indent(node: Node)
    ensures
        node matches Node::Mapping(entry) ==> root_indent(node) == Some(entry.indent),
        node matches Node::Sequence(item) ==> root_indent(node) == Some(item.indent),
        node matches Node::Scalar(line) ==> root_indent(node) == Some(line.indent),
        node is Comment || node is Opaque ==> root_indent(node) is None,
        node matches Node::Output(action) ==> (root_indent(node) == Some(0usize) <== (action.width is None
            && action.trims_left)) && (!(action.width is None && action.trims_left) ==> root_indent(node)
            == Some(action.rendered_indent())),
        node matches Node::Control(region) ==> root_indent(node) == branches_root_indent(region.branches@),
{
}

/// The root indent of a list of nodes is the least among theirs: it is one
/// node's root indent, no node's is smaller, and there is none exactly when
/// no node has one.
pub proof fn lemma_list_root_indent_least(nodes: Seq<Node>)
    ensures
        list_root_indent(nodes) is None <==> (forall|i: int|
            0 <= i < nodes.len() ==> root_indent(#[trigger] nodes[i]) is None),
        list_root_indent(nodes) matches Some(y) ==> exists|i: int|
            0 <= i < nodes.len() && root_indent(#[trigger] nodes[i]) == Some(y),
        forall|i: int|
            0 <= i < nodes.len() && root_indent(#[trigger] nodes[i]) is Some ==> (list_root_indent(nodes) matches Some(
                y,
            ) && y <= root_indent(nodes[i])->0),
    decreases nodes.len(),
{
    if nodes.len() > 0 {
        let prefix = nodes.drop_last();
        let n = nodes.len() - 1;
        lemma_list_root_indent_least(prefix);
        assert(forall|i: int| 0 <= i < n ==> #[trigger] nodes[i] == prefix[i]);
        assert(nodes[n] == nodes.last());
        if let Some(y) = list_root_indent(nodes) {
            if list_root_indent(nodes) == root_indent(nodes.last()) {
                assert(root_indent(nodes[n]) == Some(y));
            } else {
                let i = choose|i: int| 0 <= i < prefix.len() && root_indent(#[trigger] prefix[i]) == Some(y);
                assert(root_indent(nodes[i]) == Some(y));
            }
        }
    }
}

/// The root indent of a control's branches is the least among their bodies':
/// it is one body's, no body's is smaller, and there is none exactly when no
/// body has one.
pub proof fn lemma_branches_root_indent_least(branches: Seq<ControlBranch>)
    ensures
        branches_root_indent(branches) is None <==> (forall|j: int|
            0 <= j < branches.len() ==> list_root_indent(#[trigger] branches[j].body@) is None),
        branches_root_indent(branches) matches Some(y) ==> exists|j: int|
            0 <= j < branches.len() && list_root_indent(#[trigger] branches[j].body@) == Some(y),
        forall|j: int|
            0 <= j < branches.len() && list_root_indent(#[trigger] branches[j].body@) is Some ==> (
            branches_root_indent(branches) matches Some(y) && y <= list_root_indent(branches[j].body@)->0),
    decreases branches.len(),
{
    if branches.len() > 0 {
        let prefix = branches.drop_last();
        let n = branches.len() - 1;
        lemma_branches_root_indent_least(prefix);
        assert(forall|j: int| 0 <= j < n ==> #[trigger] branches[j] == prefix[j]);
        assert(branches[n] == branches.last());
        if let Some(y) = branches_root_indent(branches) {
            if branches_root_indent(branches) == list_root_indent(branches.last().body@) {
                assert(list_root_indent(branches[n].body@) == Some(y));
            } else {
                let j = choose|j: int|
                    0 <= j < prefix.len() && list_root_indent(#[trigger] prefix[j].body@) == Some(y);
                assert(list_root_indent(branches[j].body@) == Some(y));
            }
        }
    }
}

/// Minimum caller-relative indent of a helper's rendered root (see
/// [`root_indent`]).
pub fn helper_root_content_indent(node: &Node) -> (indent: Option<usize>)
    ensures
        indent == root_indent(*node),
    decreases node, 2nat,
{
    match node {
        Node::Mapping(entry) => Some(entry.indent),
        Node::Sequence(item) => Some(item.indent),
        Node::Scalar(line) => Some(line.indent),
        Node::Control(region) => region_root_indent(region),
        Node::Output(action) => if action.width.is_none() && action.trims_left {
            Some(0)
        } else {
            Some(action.render_indent())
        },
        Node::Comment(_) | Node::Opaque(_) => None,
    }
}

/// The least root indent among `nodes`.
fn nodes_root_indent(nodes: &Vec<Node>) -> (indent: Option<usize>)
    ensures
        indent == list_root_indent(nodes@),
    decreases nodes@, 1nat,
{
    let mut least: Option<usize> = None;
    let mut i: usize = 0;
    while i < nodes.len()
        invariant
            i <= nodes@.len(),
            least == list_root_indent(nodes@.take(i as int)),
        decreases nodes@.len() - i,
    {
        proof {
            assert(nodes@.take(i + 1).drop_last() =~= nodes@.take(i as int));
            assert(nodes@.take(i + 1).last() == nodes@[i as int]);
        }
        least = min_option(least, helper_root_content_indent(&nodes[i]));
        i += 1;
    }
    proof {
        assert(nodes@.take(nodes@.len() as int) =~= nodes@);
    }
    least
}

/// The least root indent among a region's branch bodies.
fn region_root_indent(region: &ControlRegion) -> (indent: Option<usize>)
    ensures
        indent == branches_root_indent(region.branches@),
    decreases region, 0nat,
{
    let mut least: Option<usize> = None;
    let mut j: usize = 0;
    while j < region.branches.len()
        invariant
            j <= region.branches@.len(),
            least == branches_root_indent(region.branches@.take(j as int)),
        decreases region.branches@.len() - j,
    {
        proof {
            assert(region.branches@.take(j + 1).drop_last() =~= region.branches@.take(j as int));
            assert(region.branches@.take(j + 1).last() == region.branches@[j as int]);
        }
        least = min_option(least, nodes_root_indent(&region.branches[j].body));
        j += 1;
    }
    proof {
        assert(region.branches@.take(region.branches@.len() as int) =~= region.branches@);
    }
    least
}

/// Where a direct child first shows a visible YAML line deeper than the
/// container: mapping, sequence, or scalar lines only.
pub open spec fn visible_mark(nodes: Seq<Node>, indent: usize) -> Option<usize>
    decreases nodes.len(),
{
    if nodes.len() == 0 {
        None
    } else {
        let here = match nodes.last() {
            Node::Mapping(entry) => if entry.indent > indent { Some(entry.span.start) } else { None },
            Node::Sequence(item) => if item.indent > indent { Some(item.span.start) } else { None },
            Node::Scalar(line) => if line.indent > indent { Some(line.span.start) } else { None },
            _ => None,
        };
        min_opt(visible_mark(nodes.drop_last(), indent), here)
    }
}

/// The byte where a container's first deeper visible line appears
/// (actions, comments and blank spans do not count).
pub fn content_child_mark(children: &Vec<Node>, container_indent: usize) -> (mark: Option<usize>)
    ensures
        mark == visible_mark(children@, container_indent),
{
    let mut mark: Option<usize> = None;
    let mut i: usize = 0;
    while i < children.len()
        invariant
            i <= children@.len(),
            mark == visible_mark(children@.take(i as int), container_indent),
        decreases children@.len() - i,
    {
        let here = match &children[i] {
            Node::Mapping(entry) => if entry.indent > container_indent { Some(entry.span.start) } else { None },
            Node::Sequence(item) => if item.indent > container_indent { Some(item.span.start) } else { None },
            Node::Scalar(line) => if line.indent > container_indent { Some(line.span.start) } else { None },
            _ => None,
        };
        proof {
            assert(children@.take(i + 1).drop_last() =~= children@.take(i as int));
            assert(children@.take(i + 1).last() == children@[i as int]);
        }
        mark = min_option(mark, here);
        i += 1;
    }
    proof {
        assert(children@.take(children@.len() as int) =~= children@);
    }
    mark
}

// ---------------------------------------------------------------------
// Inline regions
// ---------------------------------------------------------------------

/// The spans of inline control regions in `node`, in source order.
pub open spec fn node_regions(node: Node) -> Seq<Span>
    decreases node, 2nat,
{
    match node {
        Node::Opaque(opaque) => if opaque.kind == OpaqueKind::InlineRegion { seq![opaque.span] } else { Seq::empty() },
        Node::Mapping(entry) => list_regions(entry.children@),
        Node::Sequence(item) => list_regions(item.children@),
        Node::Control(region) => branches_regions(region.branches@),
        _ => Seq::empty(),
    }
}

/// The spans of inline control regions in `nodes`, in source order.
pub open spec fn list_regions(nodes: Seq<Node>) -> Seq<Span>
    decreases nodes, 1nat,
{
    if nodes.len() == 0 {
        Seq::empty()
    } else {
        list_regions(nodes.drop_last()) + node_regions(nodes.last())
    }
}

/// The spans of inline control regions in the bodies of `branches`.
pub open spec fn branches_regions(branches: Seq<ControlBranch>) -> Seq<Span>
    decreases branches, 0nat,
{
    if branches.len() == 0 {
        Seq::empty()
    } else {
        branches_regions(branches.drop_last()) + list_regions(branches.last().body@)
    }
}

/// Append the spans of the inline control regions in `nodes`, in source
/// order, to `out`.
pub fn collect_inline_regions(nodes: &Vec<Node>, out: &mut Vec<Span>)
    ensures
        final(out)@ == old(out)@ + list_regions(nodes@),
    decreases nodes@, 1nat,
{
    let ghost start = out@;
    let mut i: usize = 0;
    while i < nodes.len()
        invariant
            i <= nodes@.len(),
            out@ == start + list_regions(nodes@.take(i as int)),
        decreases nodes@.len() - i,
    {
        let ghost before = out@;
        match &nodes[i] {
            Node::Opaque(opaque) => {
                if opaque.kind == OpaqueKind::InlineRegion {
                    out.push(opaque.span);
                }
            },
            Node::Mapping(entry) => collect_inline_regions(&entry.children, out),
            Node::Sequence(item) => collect_inline_regions(&item.children, out),
            Node::Control(region) => collect_branch_regions(region, out),
            _ => {},
        }
        proof {
            assert(out@ =~= before + node_regions(nodes@[i as int]));
            assert(nodes@.take(i + 1).drop_last() =~= nodes@.take(i as int));
            assert(nodes@.take(i + 1).last() == nodes@[i as int]);
            assert(out@ =~= start + list_regions(nodes@.take(i + 1)));
        }
        i += 1;
    }
    proof {
        assert(nodes@.take(nodes@.len() as int) =~= nodes@);
    }
}

/// Append the inline control regions of a region's branch bodies.
fn collect_branch_regions(region: &ControlRegion, out: &mut Vec<Span>)
    ensures
        final(out)@ == old(out)@ + branches_regions(region.branches@),
    decreases region, 0nat,
{
    let ghost start = out@;
    let mut j: usize = 0;
    while j < region.branches.len()
        invariant
            j <= region.branches@.len(),
            out@ == start + branches_regions(region.branches@.take(j as int)),
        decreases region.branches@.len() - j,
    {
        let ghost before = out@;
        collect_inline_regions(&region.branches[j].body, out);
        proof {
            assert(region.branches@.take(j + 1).drop_last() =~= region.branches@.take(j as int));
            assert(region.branches@.take(j + 1).last() == region.branches@[j as int]);
            assert(out@ =~= start + branches_regions(region.branches@.take(j + 1)));
        }
        j += 1;
    }
    proof {
        assert(region.branches@.take(region.branches@.len() as int) =~= region.branches@);
    }
}

// ---------------------------------------------------------------------
// Paths and branch windows
// ---------------------------------------------------------------------

/// The node one step below `node`, if the step exists there.
pub open spec fn step_into(node: Node, step: NodePathStep) -> Option<Node> {
    match (node, step) {
        (Node::Mapping(entry), NodePathStep::Child(index)) => if index < entry.children@.len() {
            Some(entry.children@[index as int])
        } else {
            None
        },
        (Node::Sequence(item), NodePathStep::Child(index)) => if index < item.children@.len() {
            Some(item.children@[index as int])
        } else {
            None
        },
        (Node::Control(region), NodePathStep::Branch { branch, child }) => if branch
            < region.branches@.len() && child < region.branches@[branch as int].body@.len() {
            Some(region.branches@[branch as int].body@[child as int])
        } else {
            None
        },
        _ => None,
    }
}

/// The node that `path` leads to from `node`.
pub open spec fn node_at(node: Node, path: Seq<NodePathStep>) -> Option<Node>
    decreases path.len(),
{
    if path.len() == 0 {
        Some(node)
    } else {
        match step_into(node, path[0]) {
            Some(next) => node_at(next, path.drop_first()),
            None => None,
        }
    }
}

/// The control region that `path` leads to from `root`, if it leads to one.
pub fn control_at_path<'n>(root: &'n Node, path: &[NodePathStep]) -> (found: Option<&'n ControlRegion>)
    ensures
        match found {
            Some(region) => node_at(*root, path@) == Some(Node::Control(*region)),
            None => !(node_at(*root, path@) matches Some(Node::Control(_))),
        },
{
    let mut node: &Node = root;
    let mut k: usize = 0;
    assert(path@.skip(0) =~= path@);
    while k < path.len()
        invariant
            k <= path@.len(),
            node_at(*root, path@) == node_at(*node, path@.skip(k as int)),
        decreases path@.len() - k,
    {
        proof {
            assert(path@.skip(k as int)[0] == path@[k as int]);
            assert(path@.skip(k as int).drop_first() =~= path@.skip(k + 1));
        }
        let next: &Node = match (node, &path[k]) {
            (Node::Mapping(entry), NodePathStep::Child(index)) => {
                if *index < entry.children.len() {
                    &entry.children[*index]
                } else {
                    return None;
                }
            },
            (Node::Sequence(item), NodePathStep::Child(index)) => {
                if *index < item.children.len() {
                    &item.children[*index]
                } else {
                    return None;
                }
            },
            (Node::Control(region), NodePathStep::Branch { branch, child }) => {
                if *branch < region.branches.len() && *child < region.branches[*branch].body.len() {
                    &region.branches[*branch].body[*child]
                } else {
                    return None;
                }
            },
            _ => {
                return None;
            },
        };
        node = next;
        k += 1;
    }
    proof {
        assert(path@.skip(path@.len() as int).len() == 0);
    }
    match node {
        Node::Control(region) => Some(region),
        _ => None,
    }
}

/// The branch whose window holds `node_start`: the last branch whose
/// header ends at or before it (the first branch when none does).
pub open spec fn branch_target(branches: Seq<ControlBranch>, node_start: usize) -> int
    decreases branches.len(),
{
    if branches.len() == 0 {
        0
    } else if node_start >= branches.last().header.end {
        branches.len() - 1
    } else {
        branch_target(branches.drop_last(), node_start)
    }
}

/// The branch holding `node_start` and that branch's half-open source
/// window: from its header's end to the next header's start (the region's
/// bounds where there is no such branch).
pub fn branch_window(region: &ControlRegion, node_start: usize) -> (found: (usize, SourceWindow))
    ensures
        found.0 == branch_target(region.branches@, node_start),
        found.1 == SourceWindow::spec_bounded(
            if found.0 < region.branches@.len() {
                region.branches@[found.0 as int].header.end
            } else {
                region.span.start
            },
            if found.0 + 1 < region.branches@.len() {
                region.branches@[found.0 + 1].header.start
            } else {
                region.span.end
            },
        ),
{
    let mut target: usize = 0;
    let mut index: usize = 0;
    while index < region.branches.len()
        invariant
            index <= region.branches@.len(),
            target == branch_target(region.branches@.take(index as int), node_start),
            index == 0 ==> target == 0,
            index > 0 ==> target < index,
        decreases region.branches@.len() - index,
    {
        proof {
            assert(region.branches@.take(index + 1).drop_last() =~= region.branches@.take(index as int));
            assert(region.branches@.take(index + 1).last() == region.branches@[index as int]);
        }
        if node_start >= region.branches[index].header.end {
            target = index;
        }
        index += 1;
    }
    proof {
        assert(region.branches@.take(region.branches@.len() as int) =~= region.branches@);
    }
    let start = if target < region.branches.len() {
        region.branches[target].header.end
    } else {
        region.span.start
    };
    let end = if target + 1 < region.branches.len() {
        region.branches[target + 1].header.start
    } else {
        region.span.end
    };
    (target, SourceWindow::bounded(start, end))
}

} // verus!
