//! Source-ordered child intervals of one container, answering the two
//! queries of deferred-content adoption: which children start inside a
//! source window, and which children cross a byte boundary.
//!
//! Children are kept sorted by start (ties by child order) and indexed by
//! a max-end segment tree, so a crossing query visits only subtrees that
//! can hold a child extending past the boundary.

use vstd::prelude::*;

use crate::window::SourceWindow;

verus! {

/// How a child takes part in the open-container chain of its parent.
#[derive(Clone, Copy, Debug, PartialEq, Eq, Structural)]
pub enum LayoutDisposition {
    /// A container still open for deeper content.
    OpenParent,
    /// Content that closes the chain.
    Barrier,
    /// Content the chain looks through (control regions, comments, opaque
    /// spans).
    Transparent,
}

/// The adoption facts of one node, gathered in one pass over the tree.
#[derive(Clone, Copy, Debug, PartialEq, Eq, Structural)]
pub struct PlannedNode {
    pub start: usize,
    pub end: usize,
    /// Deepest real content end (a control region's own span excluded).
    pub content_end: usize,
    /// The control region evaluating this node: its own start for a
    /// control, the earliest escaped control for a container.
    pub control_start: Option<usize>,
    /// Whether the node can own deferred content.
    pub can_defer: bool,
    pub disposition: LayoutDisposition,
}

/// One child extent: start, content end, and the child's position.
#[derive(Clone, Copy, Debug, PartialEq, Eq, Structural)]
pub struct ChildExtent {
    pub start: usize,
    pub end: usize,
    pub index: usize,
}

/// Whether `a` sorts before `b`: by start, ties by child position.
pub open spec fn extent_before(a: ChildExtent, b: ChildExtent) -> bool {
    a.start < b.start || (a.start == b.start && a.index < b.index)
}

/// The extent of child `k` of `children`.
pub open spec fn child_extent(children: Seq<PlannedNode>, k: int) -> ChildExtent {
    ChildExtent { start: children[k].start, end: children[k].content_end, index: k as usize }
}

/// Whether child `a` sorts before child `b`.
pub open spec fn child_before(children: Seq<PlannedNode>, a: int, b: int) -> bool {
    extent_before(child_extent(children, a), child_extent(children, b))
}

/// `entries` lists every child of `children` once, sorted.
pub open spec fn sorted_extents(entries: Seq<ChildExtent>, children: Seq<PlannedNode>) -> bool {
    &&& forall|i: int, j: int|
        0 <= i < j < entries.len() ==> extent_before(#[trigger] entries[i], #[trigger] entries[j])
    &&& forall|i: int|
        0 <= i < entries.len() ==> (#[trigger] entries[i]).index < children.len()
            && entries[i] == child_extent(children, entries[i].index as int)
}

/// Every one of the first `n` children occurs in `entries`.
pub open spec fn covers(entries: Seq<ChildExtent>, n: int) -> bool {
    forall|k: int| 0 <= k < n ==> #[trigger] holds_index(entries, k)
}

/// Some entry is child `k`'s.
pub open spec fn holds_index(entries: Seq<ChildExtent>, k: int) -> bool {
    exists|i: int| 0 <= i < entries.len() && entries[i].index == k
}

/// Whether `s` is a power of two.
pub open spec fn is_pow2(s: int) -> bool
    decreases s,
{
    if s <= 0 {
        false
    } else if s == 1 {
        true
    } else {
        s % 2 == 0 && is_pow2(s / 2)
    }
}

/// The positions, in sorted order, of children with a position in
/// `[lo, hi)` below `before` whose extent ends past `boundary`.
pub open spec fn crossing_range(entries: Seq<ChildExtent>, lo: int, hi: int, before: int, boundary: int) -> Seq<usize>
    decreases hi - lo,
{
    if hi <= lo {
        Seq::empty()
    } else {
        let p = hi - 1;
        crossing_range(entries, lo, p, before, boundary) + if p < before && p < entries.len()
            && entries[p].end > boundary {
            seq![entries[p].index]
        } else {
            Seq::empty()
        }
    }
}

/// A result list of child positions is exactly `members`, in sorted order.
pub open spec fn lists_exactly(result: Seq<usize>, children: Seq<PlannedNode>, members: spec_fn(int) -> bool) -> bool {
    &&& forall|x: usize| #[trigger] result.contains(x) ==> x < children.len() && members(x as int)
    &&& forall|k: int| 0 <= k < children.len() && #[trigger] members(k) ==> result.contains(k as usize)
    &&& forall|i: int, j: int|
        0 <= i < j < result.len() ==> child_before(children, #[trigger] result[i] as int, #[trigger] result[j] as int)
}

/// The children's extents sorted by start, ties by child order: each
/// child exactly once.
pub fn source_order(children: &[PlannedNode]) -> (entries: Vec<ChildExtent>)
    ensures
        entries@.len() == children@.len(),
        sorted_extents(entries@, children@),
        covers(entries@, children@.len() as int),
{
    let n = children.len();
    let mut entries: Vec<ChildExtent> = Vec::new();
    let mut k: usize = 0;
    while k < n
        invariant
            n == children@.len(),
            k <= n,
            entries@.len() == k,
            sorted_extents(entries@, children@),
            forall|i: int| 0 <= i < entries@.len() ==> (#[trigger] entries@[i]).index < k,
            covers(entries@, k as int),
        decreases n - k,
    {
        let extent = ChildExtent { start: children[k].start, end: children[k].content_end, index: k };
        let mut pos: usize = 0;
        while pos < entries.len() && entries[pos].start <= extent.start
            invariant
                pos <= entries@.len(),
                forall|i: int| 0 <= i < pos ==> (#[trigger] entries@[i]).start <= extent.start,
            decreases entries@.len() - pos,
        {
            pos += 1;
        }
        let ghost old_entries = entries@;
        entries.insert(pos, extent);
        proof {
            assert(extent == child_extent(children@, k as int));
            assert forall|i: int, j: int|
                0 <= i < j < entries@.len() implies extent_before(#[trigger] entries@[i], #[trigger] entries@[j]) by {
                if i < pos && j < pos {
                    assert(entries@[i] == old_entries[i] && entries@[j] == old_entries[j]);
                } else if i < pos && j == pos {
                    assert(entries@[i] == old_entries[i]);
                } else if i < pos {
                    assert(entries@[i] == old_entries[i] && entries@[j] == old_entries[j - 1]);
                } else if i == pos {
                    assert(entries@[j] == old_entries[j - 1]);
                    assert(old_entries[pos as int].start > extent.start);
                    if j - 1 > pos {
                        assert(extent_before(old_entries[pos as int], old_entries[j - 1]));
                    }
                } else {
                    assert(entries@[i] == old_entries[i - 1] && entries@[j] == old_entries[j - 1]);
                }
            }
            assert forall|q: int| 0 <= q < k + 1 implies #[trigger] holds_index(entries@, q) by {
                if q == k {
                    assert(entries@[pos as int].index == q);
                } else {
                    assert(holds_index(old_entries, q));
                    let i0 = choose|i: int| 0 <= i < old_entries.len() && old_entries[i].index == q;
                    if i0 < pos {
                        assert(entries@[i0].index == q);
                    } else {
                        assert(entries@[i0 + 1].index == q);
                    }
                }
            }
            assert forall|i: int| 0 <= i < entries@.len() implies (#[trigger] entries@[i]).index < k + 1 by {
                if i < pos {
                    assert(entries@[i] == old_entries[i]);
                } else if i > pos {
                    assert(entries@[i] == old_entries[i - 1]);
                }
            }
        }
        k += 1;
    }
    entries
}

/// Two lists that each list exactly the same members in sorted order are
/// the same list.
pub proof fn lemma_lists_exactly_unique(
    a: Seq<usize>,
    b: Seq<usize>,
    children: Seq<PlannedNode>,
    members: spec_fn(int) -> bool,
)
    requires
        lists_exactly(a, children, members),
        lists_exactly(b, children, members),
        children.len() <= usize::MAX,
    ensures
        a == b,
    decreases a.len() + b.len(),
{
    if a.len() == 0 {
        if b.len() > 0 {
            assert(b.contains(b[0]));
            assert(a.contains(b[0]));
        }
        assert(a =~= b);
    } else if b.len() == 0 {
        assert(a.contains(a[0]));
        assert(b.contains(a[0]));
    } else {
        let x = a[0];
        let y = b[0];
        assert(a.contains(x));
        assert(b.contains(y));
        assert(b.contains(x));
        assert(a.contains(y));
        let j = choose|j: int| 0 <= j < b.len() && b[j] == x;
        let i = choose|i: int| 0 <= i < a.len() && a[i] == y;
        if i > 0 && j > 0 {
            assert(child_before(children, x as int, y as int));
            assert(child_before(children, y as int, x as int));
        }
        assert(x == y);
        let rest = |k: int| members(k) && k != x as int;
        let ta = a.drop_first();
        let tb = b.drop_first();
        assert forall|z: usize| #[trigger] ta.contains(z) implies z < children.len() && rest(z as int) by {
            let q = choose|q: int| 0 <= q < ta.len() && ta[q] == z;
            assert(a.contains(z));
            assert(child_before(children, a[0] as int, a[q + 1] as int));
        }
        assert forall|z: usize| #[trigger] tb.contains(z) implies z < children.len() && rest(z as int) by {
            let q = choose|q: int| 0 <= q < tb.len() && tb[q] == z;
            assert(b.contains(z));
            assert(child_before(children, b[0] as int, b[q + 1] as int));
        }
        assert forall|k: int| 0 <= k < children.len() && #[trigger] rest(k) implies ta.contains(k as usize) by {
            assert(members(k));
            assert(a.contains(k as usize));
            let q = choose|q: int| 0 <= q < a.len() && a[q] == k as usize;
            assert(q != 0);
            assert(ta[q - 1] == k as usize);
        }
        assert forall|k: int| 0 <= k < children.len() && #[trigger] rest(k) implies tb.contains(k as usize) by {
            assert(members(k));
            assert(b.contains(k as usize));
            let q = choose|q: int| 0 <= q < b.len() && b[q] == k as usize;
            assert(b[0] == y);
            assert(q != 0);
            assert(tb[q - 1] == k as usize);
        }
        assert forall|p: int, q: int| 0 <= p < q < ta.len() implies child_before(children, #[trigger] ta[p] as int, #[trigger] ta[q] as int) by {
            assert(ta[p] == a[p + 1] && ta[q] == a[q + 1]);
        }
        assert forall|p: int, q: int| 0 <= p < q < tb.len() implies child_before(children, #[trigger] tb[p] as int, #[trigger] tb[q] as int) by {
            assert(tb[p] == b[p + 1] && tb[q] == b[q + 1]);
        }
        lemma_lists_exactly_unique(ta, tb, children, rest);
        assert(a =~= seq![x] + ta);
        assert(b =~= seq![y] + tb);
    }
}

/// `r` lists the children starting inside `window`, in sorted order.
pub open spec fn lists_window(r: Seq<usize>, children: Seq<PlannedNode>, window: SourceWindow) -> bool {
    lists_exactly(r, children, |k: int| window.spec_contains(children[k].start as int))
}

/// `r` lists the children that start before `boundary` and extend past
/// it, in sorted order.
pub open spec fn lists_crossing(r: Seq<usize>, children: Seq<PlannedNode>, boundary: usize) -> bool {
    lists_exactly(r, children, |k: int| children[k].start < boundary && children[k].content_end > boundary)
}

/// The children starting inside `window`, in sorted order.
pub open spec fn window_members(children: Seq<PlannedNode>, window: SourceWindow) -> Seq<usize> {
    choose|r: Seq<usize>| #[trigger] lists_window(r, children, window)
}

/// The children that start before `boundary` and extend past it, in
/// sorted order.
pub open spec fn crossing_members(children: Seq<PlannedNode>, boundary: usize) -> Seq<usize> {
    choose|r: Seq<usize>| #[trigger] lists_crossing(r, children, boundary)
}

/// Source-ordered child intervals for deferred range and overlap queries.
pub struct ChildIndex {
    entries: Vec<ChildExtent>,
    leaf_base: usize,
    max_ends: Vec<usize>,
    children: Ghost<Seq<PlannedNode>>,
}

impl ChildIndex {
    /// The children this index was built from.
    pub closed spec fn children(self) -> Seq<PlannedNode> {
        self.children@
    }

    #[verifier::type_invariant]
    closed spec fn wf(self) -> bool {
        let n = self.children@.len();
        let lb = self.leaf_base as int;
        &&& self.entries@.len() == n
        &&& sorted_extents(self.entries@, self.children@)
        &&& covers(self.entries@, n as int)
        &&& is_pow2(lb)
        &&& n <= lb
        &&& lb < usize::MAX / 4
        &&& self.max_ends@.len() == 2 * lb
        &&& forall|o: int|
            0 <= o < lb ==> #[trigger] self.max_ends@[lb + o] == if o < n {
                self.entries@[o].end
            } else {
                0
            }
        &&& forall|m: int|
            1 <= m < lb ==> #[trigger] self.max_ends@[m] == max_of(
                self.max_ends@[2 * m],
                self.max_ends@[2 * m + 1],
            )
    }

    /// Build the index over `children` (sorted by start, ties by order). The
    /// segment tree takes a power of two of leaf slots, at most twice the
    /// children, and twice that in nodes, so the count must leave that room
    /// in `usize`.
    pub fn new(children: &[PlannedNode]) -> (index: Self)
        requires
            children@.len() < usize::MAX / 8,
        ensures
            index.children() == children@,
    {
        let n = children.len();
        let entries = source_order(children);
        let mut leaf_base: usize = 1;
        while leaf_base < n
            invariant
                is_pow2(leaf_base as int),
                1 <= leaf_base,
                leaf_base < 2 * n + 2,
                n < usize::MAX / 8,
            decreases 2 * n + 2 - leaf_base,
        {
            proof {
                assert((2 * leaf_base) / 2 == leaf_base);
            }
            leaf_base = leaf_base * 2;
        }
        let mut max_ends: Vec<usize> = Vec::new();
        let mut i: usize = 0;
        while i < 2 * leaf_base
            invariant
                i <= 2 * leaf_base,
                leaf_base < usize::MAX / 4,
                max_ends@.len() == i,
                forall|j: int| 0 <= j < i ==> #[trigger] max_ends@[j] == 0,
            decreases 2 * leaf_base - i,
        {
            max_ends.push(0);
            i += 1;
        }
        let mut o: usize = 0;
        while o < n
            invariant
                o <= n,
                n <= leaf_base,
                leaf_base < usize::MAX / 4,
                n == entries@.len(),
                max_ends@.len() == 2 * leaf_base,
                forall|j: int| 0 <= j < leaf_base ==> #[trigger] max_ends@[j] == 0,
                forall|p: int|
                    0 <= p < leaf_base ==> #[trigger] max_ends@[leaf_base + p] == if p < o {
                        entries@[p].end
                    } else {
                        0
                    },
            decreases n - o,
        {
            max_ends.set(leaf_base + o, entries[o].end);
            o += 1;
        }
        let mut node: usize = leaf_base;
        while node > 1
            invariant
                1 <= node <= leaf_base,
                leaf_base < usize::MAX / 4,
                n <= leaf_base,
                n == entries@.len(),
                max_ends@.len() == 2 * leaf_base,
                forall|p: int|
                    0 <= p < leaf_base ==> #[trigger] max_ends@[leaf_base + p] == if p < n {
                        entries@[p].end
                    } else {
                        0
                    },
                forall|m: int|
                    node <= m < leaf_base ==> #[trigger] max_ends@[m] == max_of(
                        max_ends@[2 * m],
                        max_ends@[2 * m + 1],
                    ),
            decreases node,
        {
            node -= 1;
            let left = max_ends[2 * node];
            let right = max_ends[2 * node + 1];
            max_ends.set(node, if left >= right { left } else { right });
        }
        ChildIndex { entries, leaf_base, max_ends, children: Ghost(children@) }
    }

    /// The number of entries whose start is below `x`; entries below it
    /// all start before `x` and the rest start at or after it.
    fn partition_before(&self, x: usize) -> (p: usize)
        ensures
            p <= self.children().len(),
            forall|i: int| 0 <= i < p ==> (#[trigger] self.entries@[i]).start < x,
            forall|i: int| p <= i < self.children().len() ==> (#[trigger] self.entries@[i]).start >= x,
    {
        proof {
            use_type_invariant(self);
        }
        let mut lo: usize = 0;
        let mut hi: usize = self.entries.len();
        while lo < hi
            invariant
                0 <= lo <= hi <= self.entries@.len(),
                self.entries@.len() == self.children().len(),
                sorted_extents(self.entries@, self.children@),
                forall|i: int| 0 <= i < lo ==> (#[trigger] self.entries@[i]).start < x,
                forall|i: int| hi <= i < self.entries@.len() ==> (#[trigger] self.entries@[i]).start >= x,
            decreases hi - lo,
        {
            let mid = lo + (hi - lo) / 2;
            if self.entries[mid].start < x {
                proof {
                    assert forall|i: int| 0 <= i <= mid implies (#[trigger] self.entries@[i]).start < x by {
                        if i < mid {
                            assert(extent_before(self.entries@[i], self.entries@[mid as int]));
                        }
                    }
                }
                lo = mid + 1;
            } else {
                proof {
                    assert forall|i: int| mid <= i < self.entries@.len() implies (#[trigger] self.entries@[i]).start >= x by {
                        if i > mid {
                            assert(extent_before(self.entries@[mid as int], self.entries@[i]));
                        }
                    }
                }
                hi = mid;
            }
        }
        lo
    }

    /// The children starting inside `window`, in sorted order.
    pub fn in_window(&self, window: SourceWindow) -> (found: Vec<usize>)
        requires
            window.end matches Some(e) ==> (e >= window.start || forall|k: int|
                0 <= k < self.children().len() ==> !(e <= #[trigger] self.children()[k].start
                    < window.start)),
        ensures
            lists_exactly(
                found@,
                self.children(),
                |k: int| window.spec_contains(self.children()[k].start as int),
            ),
            self.children().len() < usize::MAX / 4,
    {
        proof {
            use_type_invariant(self);
        }
        let ghost children = self.children();
        let n = self.entries.len();
        let lo = self.partition_before(window.start);
        let hi = match window.end {
            Some(end) => self.partition_before(end),
            None => n,
        };
        proof {
            if let Some(e) = window.end {
                if hi < lo {
                    let entry = self.entries@[hi as int];
                    assert(entry == child_extent(children, entry.index as int));
                    if e >= window.start {
                        assert(self.entries@[hi as int].start < window.start);
                    } else {
                        assert(!(e <= children[entry.index as int].start < window.start));
                    }
                }
            }
        }
        let mut found: Vec<usize> = Vec::new();
        let mut p: usize = lo;
        while p < hi
            invariant
                lo <= p <= hi <= n,
                n == self.entries@.len(),
                n == children.len(),
                children == self.children(),
                sorted_extents(self.entries@, children),
                found@.len() == p - lo,
                forall|j: int| 0 <= j < found@.len() ==> #[trigger] found@[j] == self.entries@[lo + j].index,
            decreases hi - p,
        {
            found.push(self.entries[p].index);
            p += 1;
        }
        proof {
            let members = |k: int| window.spec_contains(children[k].start as int);
            assert forall|x: usize| #[trigger] found@.contains(x) implies x < children.len() && members(x as int) by {
                let k = x as int;
                let j = choose|j: int| 0 <= j < found@.len() && found@[j] == x;
                let e = self.entries@[lo + j];
                assert(e == child_extent(children, e.index as int));
                assert(e.start >= window.start);
                if let Some(end) = window.end {
                    assert(e.start < end);
                }
            }
            assert forall|k: int| 0 <= k < children.len() && #[trigger] members(k) implies found@.contains(k as usize) by {
                assert(holds_index(self.entries@, k));
                let i = choose|i: int| 0 <= i < self.entries@.len() && self.entries@[i].index == k;
                let e = self.entries@[i];
                assert(e == child_extent(children, k));
                assert(i >= lo);
                if let Some(end) = window.end {
                    assert(i < hi);
                }
                assert(found@[i - lo] == k as usize);
            }
            assert forall|i: int, j: int| 0 <= i < j < found@.len() implies child_before(
                children,
                #[trigger] found@[i] as int,
                #[trigger] found@[j] as int,
            ) by {
                let a = self.entries@[lo + i];
                let b = self.entries@[lo + j];
                assert(extent_before(a, b));
                assert(a == child_extent(children, a.index as int));
                assert(b == child_extent(children, b.index as int));
            }
        }
        found
    }

    /// The children that start before `boundary` and whose content extends
    /// past it, in sorted order.
    pub fn crossing(&self, boundary: usize) -> (found: Vec<usize>)
        ensures
            lists_exactly(
                found@,
                self.children(),
                |k: int|
                    self.children()[k].start < boundary && self.children()[k].content_end > boundary,
            ),
            self.children().len() < usize::MAX / 4,
    {
        proof {
            use_type_invariant(self);
        }
        let ghost children = self.children();
        let before = self.partition_before(boundary);
        let mut found: Vec<usize> = Vec::new();
        proof {
            assert((1 * self.leaf_base) == self.leaf_base);
        }
        self.collect_crossing(1, 0, self.leaf_base, before, boundary, &mut found);
        proof {
            let n = children.len();
            let es = self.entries@;
            let lb = self.leaf_base as int;
            lemma_crossing_range_shape(es, children, 0, lb, before as int, boundary as int);
            let members = |k: int| children[k].start < boundary && children[k].content_end > boundary;
            assert forall|x: usize| #[trigger] found@.contains(x) implies x < children.len() && members(x as int) by {
                let p = choose|p: int|
                    0 <= p < lb && p < before && p < es.len() && es[p].end > boundary && #[trigger] es[p].index == x;
                assert(es[p] == child_extent(children, es[p].index as int));
            }
            assert forall|k: int| 0 <= k < children.len() && #[trigger] members(k) implies found@.contains(k as usize) by {
                assert(holds_index(es, k));
                let i = choose|i: int| 0 <= i < es.len() && es[i].index == k;
                assert(es[i] == child_extent(children, k));
                assert(i < before);
                assert(es[i].end > boundary);
                assert(found@.contains(es[i].index));
            }
        }
        found
    }

    fn collect_crossing(
        &self,
        node: usize,
        start: usize,
        end: usize,
        before: usize,
        boundary: usize,
        crossing: &mut Vec<usize>,
    )
        requires
            is_pow2(end - start),
            start < end <= self.leaf_base,
            1 <= node,
            node * (end - start) == self.leaf_base + start,
            before <= self.children().len(),
        ensures
            final(crossing)@ == old(crossing)@ + crossing_range(
                self.entries@,
                start as int,
                end as int,
                before as int,
                boundary as int,
            ),
        decreases end - start,
    {
        proof {
            use_type_invariant(self);
            lemma_node_in_range(node as int, (end - start) as int, start as int, self.leaf_base as int);
        }
        let ghost es = self.entries@;
        if start >= before || self.max_ends[node] <= boundary {
            proof {
                if start >= before {
                    lemma_crossing_range_empty_after(es, start as int, end as int, before as int, boundary as int);
                } else {
                    lemma_subtree_bound(self, node as int, (end - start) as int, start as int);
                    lemma_crossing_range_empty_small(es, start as int, end as int, before as int, boundary as int, self.max_ends@[node as int] as int, self.leaf_base as int, self.max_ends@);
                }
                assert(crossing@ =~= crossing@ + Seq::<usize>::empty());
            }
            return ;
        }
        if end - start == 1 {
            proof {
                assert(node * (end - start) == node) by (nonlinear_arith)
                    requires
                        end - start == 1,
                ;
                assert(node == self.leaf_base + start);
                assert(crossing_range(es, start as int, end as int, before as int, boundary as int)
                    == crossing_range(es, start as int, start as int, before as int, boundary as int)
                    + if start < before && start < es.len() && es[start as int].end > boundary {
                    seq![es[start as int].index]
                } else {
                    Seq::empty()
                });
            }
            if start < self.entries.len() {
                crossing.push(self.entries[start].index);
                proof {
                    assert(self.max_ends@[self.leaf_base + start] == es[start as int].end);
                }
            } else {
                proof {
                    assert(self.max_ends@[self.leaf_base + start] == 0);
                }
            }
            return ;
        }
        let size = end - start;
        let middle = start + size / 2;
        proof {
            assert(size % 2 == 0);
            assert(is_pow2((size / 2) as int));
            assert((node * 2) * (size / 2) == node * size) by (nonlinear_arith)
                requires
                    size % 2 == 0,
            ;
            assert((node * 2 + 1) * (size / 2) == node * size + size / 2) by (nonlinear_arith)
                requires
                    size % 2 == 0,
            ;
            lemma_crossing_range_split(es, start as int, middle as int, end as int, before as int, boundary as int);
        }
        self.collect_crossing(node * 2, start, middle, before, boundary, crossing);
        self.collect_crossing(node * 2 + 1, middle, end, before, boundary, crossing);
        proof {
            assert(crossing@ =~= old(crossing)@ + crossing_range(es, start as int, end as int, before as int, boundary as int));
        }
    }
}

/// The larger of two values.
pub open spec fn max_of(a: usize, b: usize) -> usize {
    if a >= b {
        a
    } else {
        b
    }
}

/// A tree node whose range has size `s` starting at `start` is a valid
/// index below `2 * lb`; an internal node's children are too.
proof fn lemma_node_in_range(node: int, s: int, start: int, lb: int)
    requires
        1 <= node,
        1 <= s,
        0 <= start,
        start + s <= lb,
        node * s == lb + start,
        lb < usize::MAX / 4,
    ensures
        node < 2 * lb,
        s >= 2 ==> node < lb,
{
    assert(node <= node * s) by (nonlinear_arith)
        requires
            1 <= node,
            1 <= s,
    ;
    if s >= 2 {
        assert(node * s >= node * 2) by (nonlinear_arith)
            requires
                1 <= node,
                s >= 2,
        ;
        if node >= lb {
            assert(node * s >= lb * s) by (nonlinear_arith)
                requires
                    node >= lb,
                    s >= 0,
            ;
            assert(lb * s >= 2 * lb) by (nonlinear_arith)
                requires
                    s >= 2,
                    lb >= 0,
            ;
        }
    }
}

/// Every leaf below a node holds at most the node's stored maximum.
proof fn lemma_subtree_bound(index: &ChildIndex, node: int, s: int, start: int)
    requires
        index.wf(),
        is_pow2(s),
        1 <= node,
        0 <= start,
        start + s <= index.leaf_base,
        node * s == index.leaf_base + start,
    ensures
        forall|p: int| start <= p < start + s ==> #[trigger] index.max_ends@[index.leaf_base + p] <= index.max_ends@[node],
    decreases s,
{
    let lb = index.leaf_base as int;
    lemma_node_in_range(node, s, start, lb);
    if s == 1 {
        assert(node == lb + start);
    } else {
        assert(s % 2 == 0);
        let h = s / 2;
        assert((node * 2) * h == node * s) by (nonlinear_arith)
            requires
                s % 2 == 0,
                h == s / 2,
        ;
        assert((node * 2 + 1) * h == node * s + h) by (nonlinear_arith)
            requires
                s % 2 == 0,
                h == s / 2,
        ;
        lemma_subtree_bound(index, node * 2, h, start);
        lemma_subtree_bound(index, node * 2 + 1, h, start + h);
        assert(index.max_ends@[node] == max_of(index.max_ends@[2 * node], index.max_ends@[2 * node + 1]));
    }
}

proof fn lemma_crossing_range_empty_after(es: Seq<ChildExtent>, lo: int, hi: int, before: int, boundary: int)
    requires
        lo >= before,
    ensures
        crossing_range(es, lo, hi, before, boundary) == Seq::<usize>::empty(),
    decreases hi - lo,
{
    if hi > lo {
        lemma_crossing_range_empty_after(es, lo, hi - 1, before, boundary);
    }
}

proof fn lemma_crossing_range_empty_small(
    es: Seq<ChildExtent>,
    lo: int,
    hi: int,
    before: int,
    boundary: int,
    bound: int,
    lb: int,
    max_ends: Seq<usize>,
)
    requires
        bound <= boundary,
        0 <= lo,
        forall|p: int| lo <= p < hi ==> #[trigger] max_ends[lb + p] <= bound,
        forall|p: int| 0 <= p < es.len() && lo <= p < hi ==> max_ends[lb + p] == #[trigger] es[p].end,
    ensures
        crossing_range(es, lo, hi, before, boundary) == Seq::<usize>::empty(),
    decreases hi - lo,
{
    if hi > lo {
        lemma_crossing_range_empty_small(es, lo, hi - 1, before, boundary, bound, lb, max_ends);
        let p = hi - 1;
        if p < es.len() {
            assert(max_ends[lb + p] <= bound);
        }
    }
}

proof fn lemma_crossing_range_split(es: Seq<ChildExtent>, lo: int, mid: int, hi: int, before: int, boundary: int)
    requires
        lo <= mid <= hi,
    ensures
        crossing_range(es, lo, hi, before, boundary) == crossing_range(es, lo, mid, before, boundary)
            + crossing_range(es, mid, hi, before, boundary),
    decreases hi - mid,
{
    if hi == mid {
        assert(crossing_range(es, lo, mid, before, boundary) + Seq::<usize>::empty() =~= crossing_range(es, lo, mid, before, boundary));
    } else {
        lemma_crossing_range_split(es, lo, mid, hi - 1, before, boundary);
        let tail = if hi - 1 < before && hi - 1 < es.len() && es[hi - 1].end > boundary {
            seq![es[hi - 1].index]
        } else {
            Seq::<usize>::empty()
        };
        assert(crossing_range(es, lo, mid, before, boundary) + crossing_range(es, mid, hi - 1, before, boundary) + tail
            =~= crossing_range(es, lo, mid, before, boundary) + (crossing_range(es, mid, hi - 1, before, boundary) + tail));
    }
}

/// Membership and order of `crossing_range`: its members are the
/// qualifying positions' children, listed in sorted order.
proof fn lemma_crossing_range_shape(
    es: Seq<ChildExtent>,
    children: Seq<PlannedNode>,
    lo: int,
    hi: int,
    before: int,
    boundary: int,
)
    requires
        0 <= lo,
        sorted_extents(es, children),
    ensures
        forall|x: usize| #[trigger] crossing_range(es, lo, hi, before, boundary).contains(x) <==> exists|p: int|
            lo <= p < hi && p < before && p < es.len() && es[p].end > boundary && #[trigger] es[p].index == x,
        forall|i: int, j: int|
            0 <= i < j < crossing_range(es, lo, hi, before, boundary).len() ==> child_before(
                children,
                #[trigger] crossing_range(es, lo, hi, before, boundary)[i] as int,
                #[trigger] crossing_range(es, lo, hi, before, boundary)[j] as int,
            ),
    decreases hi - lo,
{
    if hi <= lo {
        assert(crossing_range(es, lo, hi, before, boundary) == Seq::<usize>::empty());
    } else {
        let r0 = crossing_range(es, lo, hi - 1, before, boundary);
        let r = crossing_range(es, lo, hi, before, boundary);
        lemma_crossing_range_shape(es, children, lo, hi - 1, before, boundary);
        let last = hi - 1;
        let qualifies = last < before && last < es.len() && es[last].end > boundary;
        if qualifies {
            assert(r == r0.push(es[last].index));
        } else {
            assert(r =~= r0);
        }
        assert forall|x: usize| #[trigger] r.contains(x) <==> exists|p: int|
            lo <= p < hi && p < before && p < es.len() && es[p].end > boundary && #[trigger] es[p].index == x by {
            if r.contains(x) {
                let k = choose|k: int| 0 <= k < r.len() && r[k] == x;
                if k < r0.len() {
                    assert(r0[k] == x);
                    assert(r0.contains(x));
                } else {
                    assert(es[last].index == x);
                }
            }
            if exists|p: int| lo <= p < hi && p < before && p < es.len() && es[p].end > boundary && #[trigger] es[p].index == x {
                let p = choose|p: int| lo <= p < hi && p < before && p < es.len() && es[p].end > boundary && #[trigger] es[p].index == x;
                if p < last {
                    assert(r0.contains(x));
                    let k = choose|k: int| 0 <= k < r0.len() && r0[k] == x;
                    assert(r[k] == x);
                } else {
                    assert(r[r.len() - 1] == x);
                }
            }
        }
        assert forall|i: int, j: int| 0 <= i < j < r.len() implies child_before(
            children,
            #[trigger] r[i] as int,
            #[trigger] r[j] as int,
        ) by {
            if j < r0.len() {
                assert(r[i] == r0[i] && r[j] == r0[j]);
            } else {
                assert(r[i] == r0[i]);
                assert(r0.contains(r0[i]));
                let p = choose|p: int|
                    lo <= p < hi - 1 && p < before && p < es.len() && es[p].end > boundary && #[trigger] es[p].index == r0[i];
                assert(r[j] == es[last].index);
                assert(extent_before(es[p], es[last]));
                assert(es[p] == child_extent(children, es[p].index as int));
                assert(es[last] == child_extent(children, es[last].index as int));
            }
        }
    }
}

} // verus!
