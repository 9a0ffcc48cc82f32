//! The templated-YAML tree that the interpreter walks: mapping entries and
//! sequence items with their children, control regions with their branch
//! bodies, output actions, comments, plain scalar lines, and opaque spans.
//!
//! Only what the adoption and placement logic reads is kept: byte spans,
//! indents, whether a key opens a nested scope, inline values and block
//! scalars, a control region's kind and the indent its content renders at,
//! and an output action's column, stated width and left trim.

use vstd::prelude::*;

verus! {

/// A half-open byte range of the source.
#[derive(Clone, Copy, Debug, PartialEq, Eq, Structural)]
pub struct Span {
    pub start: usize,
    pub end: usize,
}

/// One piece of an inline scalar: literal text or a template hole.
#[derive(Clone, Copy, Debug, PartialEq, Eq, Structural)]
pub enum ScalarPart {
    Text(Span),
    Hole(Span),
}

/// The pieces of an inline scalar value and the span they were read from.
#[derive(Clone, Debug)]
pub struct ScalarParts {
    pub span: Span,
    pub parts: Vec<ScalarPart>,
}

/// A block scalar (`|`, `>`): its header and the span of its body.
#[derive(Clone, Copy, Debug, PartialEq, Eq, Structural)]
pub struct BlockScalar {
    pub header: Span,
    pub body: Span,
}

/// A `key:` line with whatever is nested under it.
#[derive(Debug)]
pub struct MappingEntry {
    pub span: Span,
    pub indent: usize,
    /// Whether the key opens a nested scope (no inline value on its line).
    pub opens_scope: bool,
    pub value: Option<ScalarParts>,
    pub block: Option<BlockScalar>,
    pub children: Vec<Node>,
}

/// A `- ` line with whatever is nested under it.
#[derive(Debug)]
pub struct SequenceItem {
    pub span: Span,
    pub indent: usize,
    pub value: Option<ScalarParts>,
    pub block: Option<BlockScalar>,
    pub children: Vec<Node>,
}

/// One branch of a control region: its header action and its body.
#[derive(Debug)]
pub struct ControlBranch {
    pub header: Span,
    pub body: Vec<Node>,
}

/// Which action opens a control region.
#[derive(Clone, Copy, Debug, PartialEq, Eq, Structural)]
pub enum ControlKind {
    If,
    With,
    Range,
    Define,
    Block,
}

/// A control region through its `end`: its kind, its branches, and the
/// indent its rendered content appears at (the least indent of its text
/// lines and output actions), when it renders any.
#[derive(Debug)]
pub struct ControlRegion {
    pub kind: ControlKind,
    pub span: Span,
    pub branches: Vec<ControlBranch>,
    pub render_indent: Option<usize>,
}

/// An output action on a line of its own: its source column, the width
/// its expression states (`nindent`/`indent`), if any, and whether it opens
/// with a left trim (`{{-`).
#[derive(Clone, Copy, Debug, PartialEq, Eq, Structural)]
pub struct OutputAction {
    pub span: Span,
    pub column: usize,
    pub width: Option<usize>,
    pub trims_left: bool,
}

impl OutputAction {
    /// The indent the output renders at: its stated width, else its column.
    pub open spec fn rendered_indent(self) -> usize {
        match self.width {
            Some(width) => width,
            None => self.column,
        }
    }

    /// The indent the output renders at (see [`OutputAction::rendered_indent`]).
    pub fn render_indent(&self) -> (indent: usize)
        ensures
            indent == self.rendered_indent(),
    {
        match self.width {
            Some(width) => width,
            None => self.column,
        }
    }
}

/// A template comment.
#[derive(Clone, Copy, Debug, PartialEq, Eq, Structural)]
pub struct Comment {
    pub span: Span,
}

/// A plain scalar line (continuation text).
#[derive(Clone, Debug)]
pub struct ScalarLine {
    pub span: Span,
    pub indent: usize,
    pub content: ScalarParts,
}

/// What kind of span the parser kept opaque.
#[derive(Clone, Copy, Debug, PartialEq, Eq, Structural)]
pub enum OpaqueKind {
    /// A control region written inside one line.
    InlineRegion,
    /// Literal text after an action on the same line (`{{ key }}: value`).
    ActionLineText,
    /// Any other span the parser did not structure.
    Other,
}

/// A span the parser kept opaque.
#[derive(Clone, Copy, Debug, PartialEq, Eq, Structural)]
pub struct OpaqueNode {
    pub span: Span,
    pub kind: OpaqueKind,
}

/// One node of the templated-YAML tree.
#[derive(Debug)]
pub enum Node {
    Mapping(MappingEntry),
    Sequence(SequenceItem),
    Control(ControlRegion),
    Output(OutputAction),
    Comment(Comment),
    Scalar(ScalarLine),
    Opaque(OpaqueNode),
}

impl Node {
    /// The first byte of the node.
    pub open spec fn start(self) -> usize {
        match self {
            Node::Mapping(entry) => entry.span.start,
            Node::Sequence(item) => item.span.start,
            Node::Control(region) => region.span.start,
            Node::Output(action) => action.span.start,
            Node::Comment(comment) => comment.span.start,
            Node::Scalar(line) => line.span.start,
            Node::Opaque(opaque) => opaque.span.start,
        }
    }

    /// The first byte of the node.
    pub fn span_start(&self) -> (start: usize)
        ensures
            start == self.start(),
    {
        match self {
            Node::Mapping(entry) => entry.span.start,
            Node::Sequence(item) => item.span.start,
            Node::Control(region) => region.span.start,
            Node::Output(action) => action.span.start,
            Node::Comment(comment) => comment.span.start,
            Node::Scalar(line) => line.span.start,
            Node::Opaque(opaque) => opaque.span.start,
        }
    }
}

/// The number of nodes in `node`'s subtree.
pub open spec fn node_size(node: Node) -> nat
    decreases node, 1nat,
{
    match node {
        Node::Mapping(entry) => 1 + list_size(entry.children@),
        Node::Sequence(item) => 1 + list_size(item.children@),
        Node::Control(region) => 1 + branches_size(region.branches@),
        _ => 1,
    }
}

/// The number of nodes in the subtrees of `nodes`.
pub open spec fn list_size(nodes: Seq<Node>) -> nat
    decreases nodes, 0nat,
{
    if nodes.len() == 0 {
        0
    } else {
        list_size(nodes.drop_last()) + node_size(nodes.last())
    }
}

/// The number of nodes in the bodies of `branches`.
pub open spec fn branches_size(branches: Seq<ControlBranch>) -> nat
    decreases branches, 0nat,
{
    if branches.len() == 0 {
        0
    } else {
        branches_size(branches.drop_last()) + list_size(branches.last().body@)
    }
}

} // verus!
