//! Specification-level model of a parsed or fuzzed file, and the
//! serialization function over that model.
//!
//! A file is a root list of node references plus two append-only arenas:
//! nodes and ranges. Serialization walks the root list; a range is never
//! re-entered while it is being expanded (the `seen` guard), which keeps
//! serialization well defined even when mutations introduce shared or cyclic
//! range references.

use vstd::prelude::*;

verus! {

/// Specification-level image of one tree node.
pub enum NodeModel {
    /// An open pattern, the child range, and a close pattern.
    Delim(Seq<u8>, int, Seq<u8>),
    /// A child range with no surrounding delimiters.
    Range(int),
    /// A literal leaf, serialized verbatim.
    Token(Seq<u8>),
}

impl NodeModel {
    /// The range this node refers to, if any.
    pub open spec fn range_ref(self) -> Option<int> {
        match self {
            NodeModel::Delim(_, r, _) => Some(r),
            NodeModel::Range(r) => Some(r),
            NodeModel::Token(_) => None,
        }
    }

    /// Whether this node is a delimiter region.
    pub open spec fn is_delim(self) -> bool {
        self matches NodeModel::Delim(_, _, _)
    }

    /// The open pattern, child range and close pattern of a delimiter node.
    pub open spec fn delim_parts(self) -> (Seq<u8>, int, Seq<u8>)
        recommends
            self.is_delim(),
    {
        match self {
            NodeModel::Delim(o, r, c) => (o, r, c),
            _ => (Seq::empty(), 0, Seq::empty()),
        }
    }
}

/// Some node of the arena is a delimiter region.
pub open spec fn has_delim(nodes: Seq<NodeModel>) -> bool {
    exists|i: int| 0 <= i < nodes.len() && (#[trigger] nodes[i]).is_delim()
}

/// Specification-level image of a parsed or fuzzed file.
pub struct FileModel {
    pub root: Seq<int>,
    pub nodes: Seq<NodeModel>,
    pub ranges: Seq<Seq<int>>,
}

/// Every entry of `ns` is a valid node index of `m`.
pub open spec fn valid_refs(m: FileModel, ns: Seq<int>) -> bool {
    forall|i: int| 0 <= i < ns.len() ==> 0 <= #[trigger] ns[i] < m.nodes.len()
}

impl FileModel {
    /// The node's range reference, if it has one, is a valid range index.
    pub open spec fn node_wf(self, n: NodeModel) -> bool {
        match n.range_ref() {
            Some(r) => 0 <= r < self.ranges.len(),
            None => true,
        }
    }

    /// Reference validity: every node reference in the root list or in any
    /// range indexes a node, and every range reference in a node indexes a
    /// range.
    pub open spec fn wf(self) -> bool {
        &&& valid_refs(self, self.root)
        &&& forall|i: int| 0 <= i < self.nodes.len() ==> self.node_wf(#[trigger] self.nodes[i])
        &&& forall|r: int|
            0 <= r < self.ranges.len() ==> valid_refs(self, #[trigger] self.ranges[r])
    }
}

/// Arena monotonicity: mutations only append to the arenas, never remove.
pub open spec fn arenas_grow(pre: FileModel, post: FileModel) -> bool {
    &&& post.nodes.len() >= pre.nodes.len()
    &&& post.ranges.len() >= pre.ranges.len()
}

/// How many entries of `seen` are still false; the termination measure for
/// serialization.
pub open spec fn count_false(seen: Seq<bool>) -> nat
    decreases seen.len(),
{
    if seen.len() == 0 {
        0
    } else {
        count_false(seen.drop_last()) + if seen.last() {
            0nat
        } else {
            1nat
        }
    }
}

/// Marking a still-false entry lowers `count_false` by exactly one.
pub proof fn lemma_count_false_update(seen: Seq<bool>, r: int)
    requires
        0 <= r < seen.len(),
        !seen[r],
    ensures
        count_false(seen.update(r, true)) + 1 == count_false(seen),
    decreases seen.len(),
{
    let upd = seen.update(r, true);
    if r == seen.len() - 1 {
        assert(upd.drop_last() =~= seen.drop_last());
    } else {
        assert(upd.drop_last() =~= seen.drop_last().update(r, true));
        lemma_count_false_update(seen.drop_last(), r);
    }
}

/// A `seen` vector of length `n`, all false.
pub open spec fn all_unseen(n: nat) -> Seq<bool> {
    Seq::new(n, |i: int| false)
}

/// Serialization of one node under the guard state `seen`.
pub open spec fn ser_node(m: FileModel, seen: Seq<bool>, n: int) -> Seq<u8>
    decreases count_false(seen), 1nat, 0nat,
{
    if 0 <= n < m.nodes.len() {
        match m.nodes[n] {
            NodeModel::Token(b) => b,
            NodeModel::Delim(o, r, c) => o + ser_range(m, seen, r) + c,
            NodeModel::Range(r) => ser_range(m, seen, r),
        }
    } else {
        Seq::empty()
    }
}

/// Expansion of one range: nothing if the range is already on the active
/// expansion path, else the serialization of its children with the range
/// marked.
pub open spec fn ser_range(m: FileModel, seen: Seq<bool>, r: int) -> Seq<u8>
    decreases count_false(seen), 0nat, 0nat,
{
    if 0 <= r < m.ranges.len() && 0 <= r < seen.len() && !seen[r] {
        proof {
            lemma_count_false_update(seen, r);
        }
        ser_list(m, seen.update(r, true), m.ranges[r])
    } else {
        Seq::empty()
    }
}

/// Serialization of a list of nodes, left to right.
pub open spec fn ser_list(m: FileModel, seen: Seq<bool>, ns: Seq<int>) -> Seq<u8>
    decreases count_false(seen), 2nat, ns.len(),
{
    if ns.len() == 0 {
        Seq::empty()
    } else {
        ser_node(m, seen, ns[0]) + ser_list(m, seen, ns.drop_first())
    }
}

/// The byte stream a file flattens to.
pub open spec fn spec_serialize(m: FileModel) -> Seq<u8> {
    ser_list(m, all_unseen(m.ranges.len()), m.root)
}

/// `n` copies of `s`, concatenated.
pub open spec fn repeated(s: Seq<int>, n: nat) -> Seq<int>
    decreases n,
{
    if n == 0 {
        Seq::empty()
    } else {
        s + repeated(s, (n - 1) as nat)
    }
}

/// One more copy lands at the end of the repetition.
pub proof fn lemma_repeated_snoc(s: Seq<int>, n: nat)
    ensures
        repeated(s, n + 1) == repeated(s, n) + s,
    decreases n,
{
    if n == 0 {
        assert(repeated(s, 0) =~= Seq::<int>::empty());
        assert(repeated(s, 1) =~= s + Seq::<int>::empty());
        assert(repeated(s, 0) + s =~= s + Seq::<int>::empty());
    } else {
        lemma_repeated_snoc(s, (n - 1) as nat);
        assert(s + (repeated(s, (n - 1) as nat) + s) =~= (s + repeated(s, (n - 1) as nat)) + s);
    }
}

/// Validity of a reference list depends only on the node-arena length.
pub proof fn lemma_valid_refs_same_nodes(a: FileModel, b: FileModel, ns: Seq<int>)
    requires
        valid_refs(a, ns),
        b.nodes.len() >= a.nodes.len(),
    ensures
        valid_refs(b, ns),
{
}

/// Every entry of `ns` lies in `[0, b)`.
pub open spec fn all_below(ns: Seq<int>, b: int) -> bool {
    forall|i: int| 0 <= i < ns.len() ==> 0 <= #[trigger] ns[i] < b
}

/// The node refers to range `r`.
pub open spec fn references(n: NodeModel, r: int) -> bool {
    n.range_ref() == Some(r)
}

impl FileModel {
    /// Every node's children were appended to the node arena before the
    /// node itself; freshly parsed files have this shape.
    pub open spec fn ordered(self) -> bool {
        forall|i: int|
            0 <= i < self.nodes.len() ==> match (#[trigger] self.nodes[i]).range_ref() {
                Some(r) => 0 <= r < self.ranges.len() && all_below(self.ranges[r], i),
                None => true,
            }
    }

    /// No two nodes share a range; freshly parsed files have this shape.
    pub open spec fn unique_refs(self) -> bool {
        forall|i: int, j: int, r: int|
            0 <= i < self.nodes.len() && 0 <= j < self.nodes.len() && #[trigger] references(
                self.nodes[i],
                r,
            ) && #[trigger] references(self.nodes[j], r) ==> i == j
    }
}

/// Serialization of one node of an ordered file; recursion descends along
/// node indices, so no guard state is needed.
pub open spec fn ord_node(m: FileModel, n: int) -> Seq<u8>
    decreases n, 2nat, 0nat,
{
    if 0 <= n < m.nodes.len() {
        match m.nodes[n] {
            NodeModel::Token(b) => b,
            NodeModel::Delim(o, r, c) => o + ord_range(m, n, r) + c,
            NodeModel::Range(r) => ord_range(m, n, r),
        }
    } else {
        Seq::empty()
    }
}

/// Expansion of range `r` as referenced from node `n`.
pub open spec fn ord_range(m: FileModel, n: int, r: int) -> Seq<u8>
    decreases n, 1nat, 0nat,
{
    if 0 <= r < m.ranges.len() {
        ord_list(m, n, m.ranges[r])
    } else {
        Seq::empty()
    }
}

/// Serialization of a list of nodes all below `bound`, left to right.
pub open spec fn ord_list(m: FileModel, bound: int, ns: Seq<int>) -> Seq<u8>
    decreases bound, 0nat, ns.len(),
{
    if ns.len() == 0 {
        Seq::empty()
    } else {
        (if 0 <= ns[0] < bound {
            ord_node(m, ns[0])
        } else {
            Seq::empty()
        }) + ord_list(m, bound, ns.drop_first())
    }
}

/// Every node's range reference, if any, indexes a valid range.
pub open spec fn nodes_wf(m: FileModel) -> bool {
    forall|i: int| 0 <= i < m.nodes.len() ==> m.node_wf(#[trigger] m.nodes[i])
}

/// `post`'s arenas extend `pre`'s: entries are only appended.
pub open spec fn arena_extends(pre: FileModel, post: FileModel) -> bool {
    &&& pre.nodes.len() <= post.nodes.len()
    &&& pre.ranges.len() <= post.ranges.len()
    &&& forall|i: int| 0 <= i < pre.nodes.len() ==> #[trigger] post.nodes[i] == pre.nodes[i]
    &&& forall|r: int| 0 <= r < pre.ranges.len() ==> #[trigger] post.ranges[r] == pre.ranges[r]
}

/// Appending to the arenas does not change the serialization of nodes that
/// already existed.
pub proof fn lemma_ord_node_append(pre: FileModel, post: FileModel, n: int)
    requires
        arena_extends(pre, post),
        nodes_wf(pre),
        0 <= n < pre.nodes.len(),
    ensures
        ord_node(post, n) == ord_node(pre, n),
    decreases n, 2nat, 0nat,
{
    assert(pre.node_wf(pre.nodes[n]));
    match pre.nodes[n] {
        NodeModel::Token(_) => {},
        NodeModel::Delim(_, r, _) => {
            lemma_ord_range_append(pre, post, n, r);
        },
        NodeModel::Range(r) => {
            lemma_ord_range_append(pre, post, n, r);
        },
    }
}

proof fn lemma_ord_range_append(pre: FileModel, post: FileModel, n: int, r: int)
    requires
        arena_extends(pre, post),
        nodes_wf(pre),
        0 <= r < pre.ranges.len(),
        n <= pre.nodes.len(),
    ensures
        ord_range(post, n, r) == ord_range(pre, n, r),
    decreases n, 1nat, 0nat,
{
    lemma_ord_list_append(pre, post, n, pre.ranges[r]);
}

/// Appending to the arenas does not change the serialization of a list of
/// nodes that already existed.
pub proof fn lemma_ord_list_append(pre: FileModel, post: FileModel, bound: int, ns: Seq<int>)
    requires
        arena_extends(pre, post),
        nodes_wf(pre),
        bound <= pre.nodes.len(),
    ensures
        ord_list(post, bound, ns) == ord_list(pre, bound, ns),
    decreases bound, 0nat, ns.len(),
{
    if ns.len() > 0 {
        if 0 <= ns[0] < bound {
            lemma_ord_node_append(pre, post, ns[0]);
        }
        lemma_ord_list_append(pre, post, bound, ns.drop_first());
    }
}

/// The serialization of a node list does not depend on the bound, as long
/// as the bound covers every entry.
pub proof fn lemma_ord_list_bound(m: FileModel, b1: int, b2: int, ns: Seq<int>)
    requires
        all_below(ns, b1),
        b1 <= b2,
    ensures
        ord_list(m, b2, ns) == ord_list(m, b1, ns),
    decreases ns.len(),
{
    if ns.len() > 0 {
        lemma_ord_list_bound(m, b1, b2, ns.drop_first());
    }
}

/// Splitting a node list splits its ordered serialization.
pub proof fn lemma_ord_list_concat(m: FileModel, bound: int, a: Seq<int>, b: Seq<int>)
    ensures
        ord_list(m, bound, a + b) == ord_list(m, bound, a) + ord_list(m, bound, b),
    decreases a.len(),
{
    if a.len() == 0 {
        assert(a + b =~= b);
        assert(ord_list(m, bound, a) =~= Seq::empty());
        assert(ord_list(m, bound, a) + ord_list(m, bound, b) =~= ord_list(m, bound, b));
    } else {
        assert((a + b).drop_first() =~= a.drop_first() + b);
        lemma_ord_list_concat(m, bound, a.drop_first(), b);
        let first = if 0 <= a[0] < bound {
            ord_node(m, a[0])
        } else {
            Seq::empty()
        };
        assert(first + (ord_list(m, bound, a.drop_first()) + ord_list(m, bound, b)) =~= (first
            + ord_list(m, bound, a.drop_first())) + ord_list(m, bound, b));
    }
}

/// Serializing one more node extends the ordered list serialization at the
/// end.
pub proof fn lemma_ord_list_snoc(m: FileModel, bound: int, ns: Seq<int>, n: int)
    requires
        0 <= n < bound,
    ensures
        ord_list(m, bound, ns.push(n)) == ord_list(m, bound, ns) + ord_node(m, n),
{
    let single = seq![n];
    assert(ns.push(n) =~= ns + single);
    lemma_ord_list_concat(m, bound, ns, single);
    assert(single.drop_first() =~= Seq::<int>::empty());
    assert(single[0] == n);
    assert(ord_list(m, bound, Seq::<int>::empty()) == Seq::<u8>::empty());
    assert(ord_list(m, bound, single) == ord_node(m, n) + ord_list(m, bound, single.drop_first()));
    assert(ord_node(m, n) + Seq::<u8>::empty() =~= ord_node(m, n));
}

/// No range marked in `seen` is referenced by a node below `bound`.
pub open spec fn fresh_for(m: FileModel, seen: Seq<bool>, bound: int) -> bool {
    forall|r: int, q: int|
        0 <= r < seen.len() && 0 <= q < bound && q < m.nodes.len() && seen[r] ==> !(
        #[trigger] references(m.nodes[q], r))
}

/// On a well-formed, ordered file without range sharing, the guarded
/// serialization agrees with the ordered one: the guard never fires.
proof fn lemma_eq_node(m: FileModel, seen: Seq<bool>, n: int)
    requires
        m.wf(),
        m.ordered(),
        m.unique_refs(),
        seen.len() == m.ranges.len(),
        0 <= n < m.nodes.len(),
        fresh_for(m, seen, n + 1),
    ensures
        ser_node(m, seen, n) == ord_node(m, n),
    decreases n, 2nat, 0nat,
{
    match m.nodes[n] {
        NodeModel::Token(_) => {},
        NodeModel::Delim(_, r, _) => {
            lemma_eq_range(m, seen, n, r);
        },
        NodeModel::Range(r) => {
            lemma_eq_range(m, seen, n, r);
        },
    }
}

proof fn lemma_eq_range(m: FileModel, seen: Seq<bool>, n: int, r: int)
    requires
        m.wf(),
        m.ordered(),
        m.unique_refs(),
        seen.len() == m.ranges.len(),
        0 <= n < m.nodes.len(),
        references(m.nodes[n], r),
        fresh_for(m, seen, n + 1),
    ensures
        ser_range(m, seen, r) == ord_range(m, n, r),
    decreases n, 1nat, 0nat,
{
    assert(m.node_wf(m.nodes[n]));
    assert(0 <= r < m.ranges.len());
    assert(!seen[r]);
    let marked = seen.update(r, true);
    assert forall|r2: int, q: int|
        0 <= r2 < marked.len() && 0 <= q < n && q < m.nodes.len() && marked[r2] implies !(
    #[trigger] references(m.nodes[q], r2)) by {
        if r2 == r {
            if references(m.nodes[q], r) {
                assert(references(m.nodes[n], r));
                assert(q == n);
            }
        } else {
            assert(seen[r2]);
        }
    }
    assert(fresh_for(m, marked, n));
    assert(all_below(m.ranges[r], n));
    lemma_eq_list(m, marked, n, m.ranges[r]);
}

proof fn lemma_eq_list(m: FileModel, seen: Seq<bool>, bound: int, ns: Seq<int>)
    requires
        m.wf(),
        m.ordered(),
        m.unique_refs(),
        seen.len() == m.ranges.len(),
        bound <= m.nodes.len(),
        all_below(ns, bound),
        fresh_for(m, seen, bound),
    ensures
        ser_list(m, seen, ns) == ord_list(m, bound, ns),
    decreases bound, 0nat, ns.len(),
{
    if ns.len() > 0 {
        assert(0 <= ns[0] < bound);
        assert(fresh_for(m, seen, ns[0] + 1));
        lemma_eq_node(m, seen, ns[0]);
        assert(all_below(ns.drop_first(), bound)) by {
            assert forall|i: int| 0 <= i < ns.drop_first().len() implies 0 <= #[trigger] ns
                .drop_first()[i] < bound by {
                assert(ns.drop_first()[i] == ns[i + 1]);
            }
        }
        lemma_eq_list(m, seen, bound, ns.drop_first());
    }
}

/// The serialization of a well-formed, ordered file without range sharing
/// is its ordered serialization.
pub proof fn lemma_serialize_ordered(m: FileModel)
    requires
        m.wf(),
        m.ordered(),
        m.unique_refs(),
    ensures
        spec_serialize(m) == ord_list(m, m.nodes.len() as int, m.root),
{
    let unseen = all_unseen(m.ranges.len());
    assert(fresh_for(m, unseen, m.nodes.len() as int));
    assert(all_below(m.root, m.nodes.len() as int)) by {
        assert(valid_refs(m, m.root));
    }
    lemma_eq_list(m, unseen, m.nodes.len() as int, m.root);
}

/// Well-formedness reassembled from its parts after a mutation that keeps
/// the root list and only grows the node arena.
pub proof fn lemma_wf_from_parts(pre: FileModel, post: FileModel)
    requires
        pre.wf(),
        post.root == pre.root,
        post.nodes.len() >= pre.nodes.len(),
        forall|q: int| 0 <= q < post.nodes.len() ==> post.node_wf(#[trigger] post.nodes[q]),
        forall|r: int| 0 <= r < post.ranges.len() ==> valid_refs(post, #[trigger] post.ranges[r]),
    ensures
        post.wf(),
{
    lemma_valid_refs_same_nodes(pre, post, pre.root);
}

/// Splitting a node list splits its serialization.
pub proof fn lemma_ser_list_concat(m: FileModel, seen: Seq<bool>, a: Seq<int>, b: Seq<int>)
    ensures
        ser_list(m, seen, a + b) == ser_list(m, seen, a) + ser_list(m, seen, b),
    decreases a.len(),
{
    if a.len() == 0 {
        assert(a + b =~= b);
        assert(ser_list(m, seen, a) =~= Seq::empty());
        assert(ser_list(m, seen, a) + ser_list(m, seen, b) =~= ser_list(m, seen, b));
    } else {
        assert((a + b).drop_first() =~= a.drop_first() + b);
        lemma_ser_list_concat(m, seen, a.drop_first(), b);
        assert(ser_node(m, seen, (a + b)[0]) + (ser_list(m, seen, a.drop_first()) + ser_list(
            m,
            seen,
            b,
        )) =~= (ser_node(m, seen, a[0]) + ser_list(m, seen, a.drop_first())) + ser_list(
            m,
            seen,
            b,
        ));
    }
}

/// Serializing one more node extends the list serialization at the end.
pub proof fn lemma_ser_list_snoc(m: FileModel, seen: Seq<bool>, ns: Seq<int>, n: int)
    ensures
        ser_list(m, seen, ns.push(n)) == ser_list(m, seen, ns) + ser_node(m, seen, n),
{
    let single = seq![n];
    assert(ns.push(n) =~= ns + single);
    lemma_ser_list_concat(m, seen, ns, single);
    assert(single.drop_first() =~= Seq::<int>::empty());
    assert(single[0] == n);
    assert(ser_list(m, seen, Seq::<int>::empty()) == Seq::<u8>::empty());
    assert(ser_list(m, seen, single) == ser_node(m, seen, n) + ser_list(
        m,
        seen,
        single.drop_first(),
    ));
    assert(ser_node(m, seen, n) + Seq::<u8>::empty() =~= ser_node(m, seen, n));
}

} // verus!
