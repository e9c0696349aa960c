//! The parser: a byte buffer plus a grammar becomes an arena-backed tree
//! whose serialization reproduces the input byte for byte.

use vstd::prelude::*;
use vstd::slice::{slice_subrange, slice_to_vec};
use crate::grammar::{Grammar, GrammarDef, GrammarDefModel, GrammarModel};
use crate::model::{
    all_below, arena_extends, lemma_ord_list_append, lemma_ord_list_bound, lemma_ord_list_snoc,
    lemma_ord_node_append, lemma_serialize_ordered, lemma_valid_refs_same_nodes, nodes_wf,
    ord_list, ord_node, ord_range, references, spec_serialize, valid_refs, FileModel, NodeModel,
};

verus! {

/// Index into the node arena.
pub type NodeRef = usize;

/// Index into the range arena.
pub type RangeRef = usize;

/// One tree node.
pub enum Node {
    /// An open pattern, the child range, and a close pattern.
    Delim(Vec<u8>, RangeRef, Vec<u8>),
    /// A child range with no surrounding delimiters.
    Range(RangeRef),
    /// A literal leaf, serialized verbatim.
    Token(Vec<u8>),
}

impl View for Node {
    type V = NodeModel;

    open spec fn view(&self) -> NodeModel {
        match self {
            Node::Delim(o, r, c) => NodeModel::Delim(o@, *r as int, c@),
            Node::Range(r) => NodeModel::Range(*r as int),
            Node::Token(b) => NodeModel::Token(b@),
        }
    }
}

impl Clone for Node {
    fn clone(&self) -> (n: Self)
        ensures
            n@ == self@,
    {
        match self {
            Node::Delim(o, r, c) => Node::Delim(o.clone(), *r, c.clone()),
            Node::Range(r) => Node::Range(*r),
            Node::Token(b) => Node::Token(b.clone()),
        }
    }
}

/// The node references of `v`, as mathematical integers.
pub open spec fn refs_model(v: Seq<usize>) -> Seq<int> {
    v.map_values(|x: usize| x as int)
}

/// Reordering node references reorders their integer images the same way.
pub proof fn lemma_refs_model_multiset(a: Seq<usize>, b: Seq<usize>)
    requires
        a.to_multiset() == b.to_multiset(),
    ensures
        refs_model(a).to_multiset() == refs_model(b).to_multiset(),
    decreases a.len(),
{
    broadcast use vstd::seq_lib::group_to_multiset_ensures;
    broadcast use vstd::multiset::group_multiset_axioms;

    if a.len() == 0 {
        assert(a.to_multiset().len() == a.len());
        assert(b.to_multiset().len() == b.len());
        assert(b.len() == 0);
        assert(refs_model(a) =~= Seq::<int>::empty());
        assert(refs_model(b) =~= Seq::<int>::empty());
    } else {
        let x = a[0];
        assert(a.contains(x));
        assert(b.to_multiset().count(x) > 0);
        assert(b.contains(x));
        let j = choose|j: int| 0 <= j < b.len() && b[j] == x;
        let a1 = a.remove(0);
        let b1 = b.remove(j);
        assert(a1.to_multiset() =~= a.to_multiset().remove(x));
        assert(b1.to_multiset() =~= b.to_multiset().remove(x));
        lemma_refs_model_multiset(a1, b1);
        assert(refs_model(a1) =~= refs_model(a).remove(0));
        assert(refs_model(b1) =~= refs_model(b).remove(j));
        assert(refs_model(a).remove(0).to_multiset() =~= refs_model(a).to_multiset().remove(
            x as int,
        ));
        assert(refs_model(b).remove(j).to_multiset() =~= refs_model(b).to_multiset().remove(
            x as int,
        ));
        assert(refs_model(a).contains(x as int));
        assert(refs_model(b).contains(x as int));
        assert(refs_model(a).to_multiset().count(x as int) > 0);
        assert(refs_model(b).to_multiset().count(x as int) > 0);
        assert(refs_model(a).to_multiset() =~= refs_model(a).to_multiset().remove(x as int).insert(
            x as int,
        ));
        assert(refs_model(b).to_multiset() =~= refs_model(b).to_multiset().remove(x as int).insert(
            x as int,
        ));
    }
}

/// The output of the parser: a root list and the two append-only arenas.
pub struct ParsedFile {
    pub root: Vec<NodeRef>,
    pub nodes: Vec<Node>,
    pub ranges: Vec<Vec<NodeRef>>,
}

impl View for ParsedFile {
    type V = FileModel;

    open spec fn view(&self) -> FileModel {
        FileModel {
            root: refs_model(self.root@),
            nodes: self.nodes@.map_values(|n: Node| n@),
            ranges: self.ranges@.map_values(|r: Vec<NodeRef>| refs_model(r@)),
        }
    }
}

pub(crate) fn clone_bytes(v: &Vec<u8>) -> (out: Vec<u8>)
    ensures
        out@ == v@,
{
    let out = v.clone();
    proof {
        assert forall|i: int| 0 <= i < out@.len() implies out@[i] == v@[i] by {
            assert(cloned::<u8>(v@[i], out@[i]));
        }
        assert(out@ =~= v@);
    }
    out
}

pub(crate) fn bytes_eq(a: &Vec<u8>, b: &Vec<u8>) -> (r: bool)
    ensures
        r <==> a@ == b@,
{
    if a.len() != b.len() {
        return false;
    }
    let mut i: usize = 0;
    while i < a.len()
        invariant
            i <= a.len(),
            a@.len() == b@.len(),
            forall|q: int| 0 <= q < i ==> a@[q] == b@[q],
        decreases a.len() - i,
    {
        if a[i] != b[i] {
            return false;
        }
        i = i + 1;
    }
    proof {
        assert(a@ =~= b@);
    }
    true
}

impl ParsedFile {
    #[verifier::rlimit(60)]
    fn dump_noderef(&self, indent: usize, noderef: NodeRef, out: &mut Vec<u8>)
        requires
            self@.wf(),
            self@.ordered(),
            (noderef as int) < self@.nodes.len(),
            indent + 4 * ((noderef as int) + 1) <= usize::MAX,
        ensures
            final(out)@ == old(out)@ + dump_node(self@, indent as nat, noderef as int),
        decreases noderef, 1nat,
    {
        let ghost m = self@;
        let ghost base = out@;
        match &self.nodes[noderef] {
            Node::Token(t) => {
                push_spaces(out, indent);
                fmt_token(out, t);
                out.push(10);
                proof {
                    assert(out@ =~= base + (spaces(indent as nat) + quoted_token(t@)
                        + seq![10u8]));
                    assert(spaces(indent as nat) + quoted_token(t@) + seq![10u8] =~= dump_node(
                        m,
                        indent as nat,
                        noderef as int,
                    ));
                }
            },
            Node::Delim(o, r, c) => {
                push_spaces(out, indent);
                fmt_token(out, o);
                out.push(32);
                out.push(123);
                out.push(10);
                self.dump_children(indent + 4, noderef, *r, out);
                push_spaces(out, indent);
                out.push(125);
                out.push(32);
                fmt_token(out, c);
                out.push(10);
                proof {
                    let inner = dump_range(m, (indent + 4) as nat, noderef as int, *r as int);
                    assert(out@ =~= base + (spaces(indent as nat) + quoted_token(o@) + seq![
                        32u8,
                        123u8,
                        10u8,
                    ] + inner + spaces(indent as nat) + seq![125u8, 32u8] + quoted_token(c@)
                        + seq![10u8]));
                }
            },
            Node::Range(r) => {
                push_spaces(out, indent);
                out.push(123);
                out.push(10);
                self.dump_children(indent + 4, noderef, *r, out);
                push_spaces(out, indent);
                out.push(125);
                out.push(32);
                out.push(10);
                proof {
                    let inner = dump_range(m, (indent + 4) as nat, noderef as int, *r as int);
                    assert(out@ =~= base + (spaces(indent as nat) + seq![123u8, 10u8] + inner
                        + spaces(indent as nat) + seq![125u8, 32u8, 10u8]));
                }
            },
        }
    }

    fn dump_children(&self, indent: usize, noderef: NodeRef, rangeref: RangeRef, out: &mut Vec<u8>)
        requires
            self@.wf(),
            self@.ordered(),
            (noderef as int) < self@.nodes.len(),
            references(self@.nodes[noderef as int], rangeref as int),
            indent + 4 * (noderef as int) <= usize::MAX,
        ensures
            final(out)@ == old(out)@ + dump_range(
                self@,
                indent as nat,
                noderef as int,
                rangeref as int,
            ),
        decreases noderef, 0nat,
    {
        let ghost m = self@;
        let ghost base = out@;
        proof {
            assert(m.node_wf(m.nodes[noderef as int]));
            assert(0 <= (rangeref as int) < m.ranges.len());
        }
        let ghost members = m.ranges[rangeref as int];
        let num = self.ranges[rangeref].len();
        proof {
            assert(members == refs_model(self.ranges@[rangeref as int]@));
            assert(members.take(0) =~= Seq::<int>::empty());
            assert(base + Seq::<u8>::empty() =~= base);
            assert(all_below(members, noderef as int));
        }
        let mut k: usize = 0;
        while k < num
            invariant
                self@ == m,
                m.wf(),
                m.ordered(),
                k <= num,
                (noderef as int) < m.nodes.len(),
                0 <= (rangeref as int) < m.ranges.len(),
                num == m.ranges[rangeref as int].len(),
                members == m.ranges[rangeref as int],
                all_below(members, noderef as int),
                indent + 4 * (noderef as int) <= usize::MAX,
                out@ == base + dump_list(m, indent as nat, noderef as int, members.take(k as int)),
            decreases num - k,
        {
            let child = self.ranges[rangeref][k];
            proof {
                assert(members[k as int] == child as int);
                assert(0 <= (child as int) < noderef as int);
            }
            self.dump_noderef(indent, child, out);
            proof {
                assert(members.take(k + 1) =~= members.take(k as int).push(child as int));
                lemma_dump_list_snoc(
                    m,
                    indent as nat,
                    noderef as int,
                    members.take(k as int),
                    child as int,
                );
            }
            k = k + 1;
        }
        proof {
            assert(members.take(num as int) =~= members);
        }
    }

    /// Render the parsed tree in its indented human-readable form: one line
    /// per token, delimiter and range regions as indented blocks.
    pub fn dump(&self) -> (out: Vec<u8>)
        requires
            self@.wf(),
            self@.ordered(),
            4 * (self@.nodes.len() as int + 1) <= usize::MAX as int,
        ensures
            out@ == spec_dump(self@),
    {
        let ghost m = self@;
        let mut out: Vec<u8> = Vec::new();
        proof {
            assert(m.root.take(0) =~= Seq::<int>::empty());
            assert(out@ =~= Seq::<u8>::empty() + dump_list(m, 0, m.nodes.len() as int, m.root.take(0)));
        }
        let num = self.root.len();
        let mut k: usize = 0;
        while k < num
            invariant
                self@ == m,
                m.wf(),
                m.ordered(),
                k <= num,
                num == m.root.len(),
                4 * (m.nodes.len() as int + 1) <= usize::MAX as int,
                out@ == dump_list(m, 0, m.nodes.len() as int, m.root.take(k as int)),
            decreases num - k,
        {
            let child = self.root[k];
            proof {
                assert(valid_refs(m, m.root));
                assert(m.root[k as int] == child as int);
                assert(0 <= (child as int) < m.nodes.len());
            }
            self.dump_noderef(0, child, &mut out);
            proof {
                assert(m.root.take(k + 1) =~= m.root.take(k as int).push(child as int));
                lemma_dump_list_snoc(m, 0, m.nodes.len() as int, m.root.take(k as int), child as int);
            }
            k = k + 1;
        }
        proof {
            assert(m.root.take(num as int) =~= m.root);
        }
        out
    }
}

/// Specification-level image of one open-delimiter frame of the parser's
/// stack.
pub struct FrameModel {
    pub start: Seq<u8>,
    pub end: Seq<u8>,
    pub range: Seq<int>,
}

/// Specification-level state of a parse in progress: the file built so far
/// and the stack of unterminated delimiter opens.
pub struct ParseState {
    pub file: FileModel,
    pub stack: Seq<FrameModel>,
}

/// The state a parse starts from: everything empty.
pub open spec fn initial_state() -> ParseState {
    ParseState {
        file: FileModel { root: Seq::empty(), nodes: Seq::empty(), ranges: Seq::empty() },
        stack: Seq::empty(),
    }
}

/// Attach an existing node to the top frame, or to the root when no frame
/// is open.
pub open spec fn st_attach(st: ParseState, nr: int) -> ParseState {
    if st.stack.len() == 0 {
        ParseState {
            file: FileModel {
                root: st.file.root.push(nr),
                nodes: st.file.nodes,
                ranges: st.file.ranges,
            },
            stack: st.stack,
        }
    } else {
        let top = st.stack.last();
        ParseState {
            file: st.file,
            stack: st.stack.update(
                st.stack.len() - 1,
                FrameModel { start: top.start, end: top.end, range: top.range.push(nr) },
            ),
        }
    }
}

/// Emit a literal token; empty tokens are dropped.
pub open spec fn st_token(st: ParseState, t: Seq<u8>) -> ParseState {
    if t.len() == 0 {
        st
    } else {
        let nr = st.file.nodes.len() as int;
        st_attach(
            ParseState {
                file: FileModel {
                    root: st.file.root,
                    nodes: st.file.nodes.push(NodeModel::Token(t)),
                    ranges: st.file.ranges,
                },
                stack: st.stack,
            },
            nr,
        )
    }
}

/// Open a new delimiter frame.
pub open spec fn st_start(st: ParseState, open: Seq<u8>, close: Seq<u8>) -> ParseState {
    ParseState {
        file: st.file,
        stack: st.stack.push(FrameModel { start: open, end: close, range: Seq::empty() }),
    }
}

/// Close a delimiter region: if the top frame expects this close pattern,
/// its children become a fresh range under a fresh delimiter node; else the
/// close pattern is a plain token.
pub open spec fn st_end(st: ParseState, close: Seq<u8>) -> ParseState {
    if st.stack.len() > 0 && st.stack.last().end == close {
        let top = st.stack.last();
        let rr = st.file.ranges.len() as int;
        let nr = st.file.nodes.len() as int;
        st_attach(
            ParseState {
                file: FileModel {
                    root: st.file.root,
                    nodes: st.file.nodes.push(NodeModel::Delim(top.start, rr, close)),
                    ranges: st.file.ranges.push(top.range),
                },
                stack: st.stack.drop_last(),
            },
            nr,
        )
    } else {
        st_token(st, close)
    }
}

/// Attach a list of existing nodes, left to right.
pub open spec fn st_attach_all(st: ParseState, ns: Seq<int>) -> ParseState
    decreases ns.len(),
{
    if ns.len() == 0 {
        st
    } else {
        st_attach_all(st_attach(st, ns[0]), ns.drop_first())
    }
}

pub proof fn lemma_st_attach_stack(st: ParseState, nr: int)
    ensures
        st_attach(st, nr).stack.len() == st.stack.len(),
{
}

pub proof fn lemma_st_token_stack(st: ParseState, t: Seq<u8>)
    ensures
        st_token(st, t).stack.len() == st.stack.len(),
{
}

pub proof fn lemma_st_attach_all_stack(st: ParseState, ns: Seq<int>)
    ensures
        st_attach_all(st, ns).stack.len() == st.stack.len(),
    decreases ns.len(),
{
    if ns.len() > 0 {
        lemma_st_attach_all_stack(st_attach(st, ns[0]), ns.drop_first());
    }
}

/// Attaching one more node continues the left-to-right attachment.
proof fn lemma_st_attach_all_snoc(st: ParseState, ns: Seq<int>, x: int)
    ensures
        st_attach_all(st, ns.push(x)) == st_attach(st_attach_all(st, ns), x),
    decreases ns.len(),
{
    if ns.len() == 0 {
        assert(ns.push(x)[0] == x);
        assert(ns.push(x).drop_first() =~= Seq::<int>::empty());
        assert(st_attach_all(st, ns) == st);
        assert(st_attach_all(st_attach(st, x), Seq::<int>::empty()) == st_attach(st, x));
        assert(st_attach_all(st, ns.push(x)) == st_attach_all(
            st_attach(st, x),
            ns.push(x).drop_first(),
        ));
    } else {
        assert(ns.push(x)[0] == ns[0]);
        assert(ns.push(x).drop_first() =~= ns.drop_first().push(x));
        lemma_st_attach_all_snoc(st_attach(st, ns[0]), ns.drop_first(), x);
        assert(st_attach_all(st, ns.push(x)) == st_attach_all(
            st_attach(st, ns[0]),
            ns.drop_first().push(x),
        ));
        assert(st_attach_all(st, ns) == st_attach_all(st_attach(st, ns[0]), ns.drop_first()));
    }
}

/// Flush the remaining open frames, top first: each open pattern becomes a
/// literal token and its collected children re-attach one level down.
pub open spec fn st_finish(st: ParseState) -> ParseState
    decreases st.stack.len(),
{
    if st.stack.len() == 0 {
        st
    } else {
        let top = st.stack.last();
        let st1 = ParseState { file: st.file, stack: st.stack.drop_last() };
        let st2 = st_token(st1, top.start);
        let st3 = st_attach_all(st2, top.range);
        proof {
            lemma_st_token_stack(st1, top.start);
            lemma_st_attach_all_stack(st2, top.range);
        }
        st_finish(st3)
    }
}

/// The position scanning resumes at after an event.
pub open spec fn event_end(ev: EventModel) -> int {
    match ev {
        EventModel::Break { split } => split,
        EventModel::Tokenizer { at, len } => at + len,
        EventModel::DelimStart { at, len, close: _ } => at + len,
        EventModel::DelimEnd { at, len } => at + len,
    }
}

/// Apply the event found at `pos` to the parse state.
pub open spec fn st_step(g: GrammarModel, s: Seq<u8>, pos: int, st: ParseState) -> ParseState {
    match spec_scan(g, s, pos) {
        EventModel::Break { split } => st_token(st, s.subrange(pos, split)),
        EventModel::Tokenizer { at, len } => st_token(
            st_token(st, s.subrange(pos, at)),
            s.subrange(at, at + len),
        ),
        EventModel::DelimStart { at, len, close } => st_start(
            st_token(st, s.subrange(pos, at)),
            s.subrange(at, at + len),
            close,
        ),
        EventModel::DelimEnd { at, len } => st_end(
            st_token(st, s.subrange(pos, at)),
            s.subrange(at, at + len),
        ),
    }
}

/// Run the scanner-driven parse from `pos` to the end of the buffer.
pub open spec fn spec_parse_from(g: GrammarModel, s: Seq<u8>, pos: int, st: ParseState) -> ParseState
    decreases s.len() - pos,
{
    if 0 <= pos < s.len() {
        let pos2 = event_end(spec_scan(g, s, pos));
        if pos < pos2 <= s.len() {
            spec_parse_from(g, s, pos2, st_step(g, s, pos, st))
        } else {
            st
        }
    } else {
        st
    }
}

/// The file the parser builds from `s` under `g`: scan events folded over
/// the empty state, then the remaining open frames flushed.
pub open spec fn spec_parse(g: GrammarModel, s: Seq<u8>) -> FileModel {
    st_finish(spec_parse_from(g, s, 0, initial_state())).file
}

/// `b` has the same frames as `a`, with the same patterns; only the
/// accumulated child lists may differ.
spec fn frames_shape(a: Seq<FrameModel>, b: Seq<FrameModel>) -> bool {
    &&& a.len() == b.len()
    &&& forall|k: int|
        0 <= k < a.len() ==> (#[trigger] b[k]).start == a[k].start && b[k].end == a[k].end
}

/// The bytes the open frames would flush to, bottom to top: each frame's
/// open pattern followed by its accumulated children.
spec fn frames_out(m: FileModel, frames: Seq<FrameModel>) -> Seq<u8>
    decreases frames.len(),
{
    if frames.len() == 0 {
        Seq::empty()
    } else {
        frames[0].start + ord_list(m, m.nodes.len() as int, frames[0].range) + frames_out(
            m,
            frames.drop_first(),
        )
    }
}

/// The bytes the whole builder state stands for: the finished top-level
/// nodes, then the open frames.
spec fn flush_out(m: FileModel, frames: Seq<FrameModel>) -> Seq<u8> {
    ord_list(m, m.nodes.len() as int, m.root) + frames_out(m, frames)
}

/// The builder invariant: the file under construction is well formed,
/// ordered and without range sharing, and every frame's children are valid
/// node references.
spec fn builder_wf(m: FileModel, frames: Seq<FrameModel>) -> bool {
    &&& m.wf()
    &&& m.ordered()
    &&& m.unique_refs()
    &&& forall|k: int| 0 <= k < frames.len() ==> valid_refs(m, (#[trigger] frames[k]).range)
}

/// Appending to the arenas (keeping the root) changes neither the root part
/// nor the frame part of the flush image.
proof fn lemma_frames_out_extend(pre: FileModel, post: FileModel, frames: Seq<FrameModel>)
    requires
        arena_extends(pre, post),
        nodes_wf(pre),
        forall|k: int| 0 <= k < frames.len() ==> valid_refs(pre, (#[trigger] frames[k]).range),
    ensures
        frames_out(post, frames) == frames_out(pre, frames),
    decreases frames.len(),
{
    if frames.len() > 0 {
        let range = frames[0].range;
        assert(valid_refs(pre, range));
        assert(all_below(range, pre.nodes.len() as int));
        lemma_ord_list_bound(post, pre.nodes.len() as int, post.nodes.len() as int, range);
        lemma_ord_list_append(pre, post, pre.nodes.len() as int, range);
        assert forall|k: int| 0 <= k < frames.drop_first().len() implies valid_refs(
            pre,
            (#[trigger] frames.drop_first()[k]).range,
        ) by {
            assert(frames.drop_first()[k] == frames[k + 1]);
        }
        lemma_frames_out_extend(pre, post, frames.drop_first());
    }
}

/// As [`lemma_frames_out_extend`], for the whole flush image.
proof fn lemma_flush_out_extend(pre: FileModel, post: FileModel, frames: Seq<FrameModel>)
    requires
        arena_extends(pre, post),
        nodes_wf(pre),
        post.root == pre.root,
        valid_refs(pre, pre.root),
        forall|k: int| 0 <= k < frames.len() ==> valid_refs(pre, (#[trigger] frames[k]).range),
    ensures
        flush_out(post, frames) == flush_out(pre, frames),
{
    assert(all_below(pre.root, pre.nodes.len() as int));
    lemma_ord_list_bound(post, pre.nodes.len() as int, post.nodes.len() as int, pre.root);
    lemma_ord_list_append(pre, post, pre.nodes.len() as int, pre.root);
    lemma_frames_out_extend(pre, post, frames);
}

/// Opening one more frame appends its open pattern and children at the end
/// of the frame image.
proof fn lemma_frames_out_push(m: FileModel, frames: Seq<FrameModel>, f: FrameModel)
    ensures
        frames_out(m, frames.push(f)) == frames_out(m, frames) + f.start + ord_list(
            m,
            m.nodes.len() as int,
            f.range,
        ),
    decreases frames.len(),
{
    let bound = m.nodes.len() as int;
    if frames.len() == 0 {
        assert(frames.push(f)[0] == f);
        assert(frames.push(f).drop_first() =~= Seq::<FrameModel>::empty());
        assert(frames_out(m, Seq::<FrameModel>::empty()) == Seq::<u8>::empty());
        assert(frames_out(m, frames.push(f)) =~= f.start + ord_list(m, bound, f.range));
        assert(frames_out(m, frames) =~= Seq::<u8>::empty());
        assert(frames_out(m, frames) + f.start + ord_list(m, bound, f.range) =~= f.start
            + ord_list(m, bound, f.range));
    } else {
        assert(frames.push(f)[0] == frames[0]);
        assert(frames.push(f).drop_first() =~= frames.drop_first().push(f));
        lemma_frames_out_push(m, frames.drop_first(), f);
        assert(frames[0].start + ord_list(m, bound, frames[0].range) + (frames_out(
            m,
            frames.drop_first(),
        ) + f.start + ord_list(m, bound, f.range)) =~= (frames[0].start + ord_list(
            m,
            bound,
            frames[0].range,
        ) + frames_out(m, frames.drop_first())) + f.start + ord_list(m, bound, f.range));
    }
}

/// Attaching one node to the top frame appends that node's bytes at the end
/// of the frame image.
proof fn lemma_frames_out_attach(m: FileModel, a: Seq<FrameModel>, b: Seq<FrameModel>, nr: int)
    requires
        a.len() >= 1,
        b.len() == a.len(),
        forall|k: int| 0 <= k < a.len() - 1 ==> #[trigger] b[k] == a[k],
        b.last().start == a.last().start,
        b.last().end == a.last().end,
        b.last().range == a.last().range.push(nr),
        0 <= nr < m.nodes.len(),
    ensures
        frames_out(m, b) == frames_out(m, a) + ord_node(m, nr),
    decreases a.len(),
{
    let bound = m.nodes.len() as int;
    if a.len() == 1 {
        assert(b[0] == b.last());
        assert(a[0] == a.last());
        lemma_ord_list_snoc(m, bound, a.last().range, nr);
        assert(a.drop_first() =~= Seq::<FrameModel>::empty());
        assert(b.drop_first() =~= Seq::<FrameModel>::empty());
        assert(frames_out(m, a.drop_first()) == Seq::<u8>::empty());
        assert(b[0].start + ord_list(m, bound, b[0].range) + frames_out(m, b.drop_first()) =~= a[0]
            .start + (ord_list(m, bound, a[0].range) + ord_node(m, nr)));
        assert(a[0].start + (ord_list(m, bound, a[0].range) + ord_node(m, nr)) =~= (a[0].start
            + ord_list(m, bound, a[0].range) + frames_out(m, a.drop_first())) + ord_node(m, nr));
    } else {
        assert(b[0] == a[0]);
        assert(a.drop_first().len() == a.len() - 1);
        assert forall|k: int| 0 <= k < a.drop_first().len() - 1 implies #[trigger] b.drop_first()[k]
            == a.drop_first()[k] by {
            assert(b.drop_first()[k] == b[k + 1]);
            assert(a.drop_first()[k] == a[k + 1]);
        }
        assert(b.drop_first().last() == b.last());
        assert(a.drop_first().last() == a.last());
        lemma_frames_out_attach(m, a.drop_first(), b.drop_first(), nr);
        assert(a[0].start + ord_list(m, bound, a[0].range) + (frames_out(m, a.drop_first())
            + ord_node(m, nr)) =~= (a[0].start + ord_list(m, bound, a[0].range) + frames_out(
            m,
            a.drop_first(),
        )) + ord_node(m, nr));
    }
}

/// The rendering of one byte in a dumped token: tab, newline and carriage
/// return as their escapes, printable ASCII verbatim, anything else as a
/// two-digit hex escape.
pub open spec fn escape_byte(b: u8) -> Seq<u8> {
    if b == 9 {
        seq![92u8, 116u8]
    } else if b == 10 {
        seq![92u8, 110u8]
    } else if b == 13 {
        seq![92u8, 114u8]
    } else if 0x20 <= b && b <= 0x7e {
        seq![b]
    } else {
        seq![92u8, 120u8, hex_digit(b / 16), hex_digit(b % 16)]
    }
}

/// The lower-case hex digit for `n`.
pub open spec fn hex_digit(n: u8) -> u8
    recommends
        n < 16,
{
    if n < 10 {
        (48 + n) as u8
    } else {
        (87 + n) as u8
    }
}

/// A token's bytes, escaped.
pub open spec fn escaped_token(t: Seq<u8>) -> Seq<u8>
    decreases t.len(),
{
    if t.len() == 0 {
        Seq::empty()
    } else {
        escape_byte(t[0]) + escaped_token(t.drop_first())
    }
}

/// A token's rendering: its escaped bytes in double quotes.
pub open spec fn quoted_token(t: Seq<u8>) -> Seq<u8> {
    seq![34u8] + escaped_token(t) + seq![34u8]
}

/// `n` spaces.
pub open spec fn spaces(n: nat) -> Seq<u8>
    decreases n,
{
    if n == 0 {
        Seq::empty()
    } else {
        seq![32u8] + spaces((n - 1) as nat)
    }
}

/// The dump rendering of one node at the given indentation: one line per
/// token, delimiter and range regions as indented blocks.
pub open spec fn dump_node(m: FileModel, indent: nat, n: int) -> Seq<u8>
    decreases n, 2nat, 0nat,
{
    if 0 <= n < m.nodes.len() {
        match m.nodes[n] {
            NodeModel::Token(t) => spaces(indent) + quoted_token(t) + seq![10u8],
            NodeModel::Delim(o, r, c) => spaces(indent) + quoted_token(o) + seq![32u8, 123u8, 10u8]
                + dump_range(m, indent + 4, n, r) + spaces(indent) + seq![125u8, 32u8]
                + quoted_token(c) + seq![10u8],
            NodeModel::Range(r) => spaces(indent) + seq![123u8, 10u8] + dump_range(
                m,
                indent + 4,
                n,
                r,
            ) + spaces(indent) + seq![125u8, 32u8, 10u8],
        }
    } else {
        Seq::empty()
    }
}

/// The dump rendering of the children of range `r`, each at `indent`.
pub open spec fn dump_range(m: FileModel, indent: nat, n: int, r: int) -> Seq<u8>
    decreases n, 1nat, 0nat,
{
    if 0 <= r < m.ranges.len() {
        dump_list(m, indent, n, m.ranges[r])
    } else {
        Seq::empty()
    }
}

/// The dump rendering of a list of nodes all below `bound`, each at
/// `indent`.
pub open spec fn dump_list(m: FileModel, indent: nat, bound: int, ns: Seq<int>) -> Seq<u8>
    decreases bound, 0nat, ns.len(),
{
    if ns.len() == 0 {
        Seq::empty()
    } else {
        (if 0 <= ns[0] < bound {
            dump_node(m, indent, ns[0])
        } else {
            Seq::empty()
        }) + dump_list(m, indent, bound, ns.drop_first())
    }
}

/// The dump rendering of a whole parsed file.
pub open spec fn spec_dump(m: FileModel) -> Seq<u8> {
    dump_list(m, 0, m.nodes.len() as int, m.root)
}

/// Splitting a node list splits its dump rendering.
proof fn lemma_dump_list_concat(m: FileModel, indent: nat, bound: int, a: Seq<int>, b: Seq<int>)
    ensures
        dump_list(m, indent, bound, a + b) == dump_list(m, indent, bound, a) + dump_list(
            m,
            indent,
            bound,
            b,
        ),
    decreases a.len(),
{
    if a.len() == 0 {
        assert(a + b =~= b);
        assert(dump_list(m, indent, bound, a) =~= Seq::empty());
        assert(dump_list(m, indent, bound, a) + dump_list(m, indent, bound, b) =~= dump_list(
            m,
            indent,
            bound,
            b,
        ));
    } else {
        assert((a + b).drop_first() =~= a.drop_first() + b);
        lemma_dump_list_concat(m, indent, bound, a.drop_first(), b);
        let first = if 0 <= a[0] < bound {
            dump_node(m, indent, a[0])
        } else {
            Seq::empty()
        };
        assert(first + (dump_list(m, indent, bound, a.drop_first()) + dump_list(
            m,
            indent,
            bound,
            b,
        )) =~= (first + dump_list(m, indent, bound, a.drop_first())) + dump_list(
            m,
            indent,
            bound,
            b,
        ));
    }
}

proof fn lemma_dump_list_snoc(m: FileModel, indent: nat, bound: int, ns: Seq<int>, n: int)
    requires
        0 <= n < bound,
    ensures
        dump_list(m, indent, bound, ns.push(n)) == dump_list(m, indent, bound, ns) + dump_node(
            m,
            indent,
            n,
        ),
{
    let single = seq![n];
    assert(ns.push(n) =~= ns + single);
    lemma_dump_list_concat(m, indent, bound, ns, single);
    assert(single.drop_first() =~= Seq::<int>::empty());
    assert(single[0] == n);
    assert(dump_list(m, indent, bound, Seq::<int>::empty()) == Seq::<u8>::empty());
    assert(dump_list(m, indent, bound, single) == dump_node(m, indent, n) + dump_list(
        m,
        indent,
        bound,
        single.drop_first(),
    ));
    assert(dump_node(m, indent, n) + Seq::<u8>::empty() =~= dump_node(m, indent, n));
}

fn hex_digit_of(n: u8) -> (d: u8)
    requires
        n < 16,
    ensures
        d == hex_digit(n),
{
    if n < 10 {
        48 + n
    } else {
        87 + n
    }
}

/// Append the quoted, escaped rendering of `token` to `out`.
fn fmt_token(out: &mut Vec<u8>, token: &Vec<u8>)
    ensures
        final(out)@ == old(out)@ + quoted_token(token@),
{
    out.push(34);
    let mut i: usize = 0;
    let ghost pre = out@;
    while i < token.len()
        invariant
            i <= token@.len(),
            out@ == pre + escaped_token(token@.take(i as int)),
        decreases token@.len() - i,
    {
        let ghost seen = out@;
        let b = token[i];
        if b == 9 {
            out.push(92);
            out.push(116);
        } else if b == 10 {
            out.push(92);
            out.push(110);
        } else if b == 13 {
            out.push(92);
            out.push(114);
        } else if 0x20 <= b && b <= 0x7e {
            out.push(b);
        } else {
            out.push(92);
            out.push(120);
            out.push(hex_digit_of(b / 16));
            out.push(hex_digit_of(b % 16));
        }
        proof {
            assert(out@ =~= seen + escape_byte(token@[i as int]));
            lemma_escaped_token_snoc(token@, i as int);
            assert(token@.take(i + 1).drop_last() =~= token@.take(i as int));
            assert(out@ =~= pre + escaped_token(token@.take(i + 1)));
        }
        i = i + 1;
    }
    out.push(34);
    proof {
        assert(token@.take(token@.len() as int) =~= token@);
        assert(out@ =~= old(out)@ + quoted_token(token@));
    }
}

/// Escaping one more byte extends the escaped rendering at the end.
proof fn lemma_escaped_token_snoc(t: Seq<u8>, i: int)
    requires
        0 <= i < t.len(),
    ensures
        escaped_token(t.take(i + 1)) == escaped_token(t.take(i)) + escape_byte(t[i]),
    decreases i,
{
    if i == 0 {
        assert(t.take(1) =~= seq![t[0]]);
        assert(t.take(1).drop_first() =~= Seq::<u8>::empty());
        assert(escaped_token(Seq::<u8>::empty()) == Seq::<u8>::empty());
        assert(escaped_token(t.take(0)) =~= Seq::<u8>::empty());
        assert(escaped_token(t.take(1)) == escape_byte(t[0]) + escaped_token(
            t.take(1).drop_first(),
        ));
        assert(escape_byte(t[0]) + Seq::<u8>::empty() =~= escape_byte(t[0]));
        assert(escaped_token(t.take(0)) + escape_byte(t[0]) =~= escape_byte(t[0]));
    } else {
        lemma_escaped_token_snoc(t.drop_first(), i - 1);
        assert(t.take(i + 1).drop_first() =~= t.drop_first().take(i));
        assert(t.take(i).drop_first() =~= t.drop_first().take(i - 1));
        assert(t.take(i + 1)[0] == t[0]);
        assert(t.take(i)[0] == t[0]);
        assert(t.drop_first()[i - 1] == t[i]);
        assert(escape_byte(t[0]) + (escaped_token(t.drop_first().take(i - 1)) + escape_byte(t[i]))
            =~= (escape_byte(t[0]) + escaped_token(t.drop_first().take(i - 1))) + escape_byte(
            t[i],
        ));
    }
}

/// Append `n` spaces to `out`.
fn push_spaces(out: &mut Vec<u8>, n: usize)
    ensures
        final(out)@ == old(out)@ + spaces(n as nat),
{
    let mut i: usize = 0;
    while i < n
        invariant
            i <= n,
            out@ == old(out)@ + spaces(i as nat),
        decreases n - i,
    {
        out.push(32);
        proof {
            lemma_spaces_snoc(i as nat);
        }
        i = i + 1;
    }
}

proof fn lemma_spaces_snoc(n: nat)
    ensures
        spaces(n + 1) == spaces(n) + seq![32u8],
    decreases n,
{
    if n == 0 {
        assert(spaces(0) =~= Seq::<u8>::empty());
        assert(spaces(1) =~= seq![32u8] + Seq::<u8>::empty());
        assert(spaces(1) =~= spaces(0) + seq![32u8]);
    } else {
        lemma_spaces_snoc((n - 1) as nat);
        assert(seq![32u8] + (spaces((n - 1) as nat) + seq![32u8]) =~= (seq![32u8] + spaces(
            (n - 1) as nat,
        )) + seq![32u8]);
    }
}

/// One open-delimiter frame: the open pattern as matched in the input, the
/// close pattern that would end it, and the children collected so far.
struct SlurpState {
    start_pattern: Vec<u8>,
    end_pattern: Vec<u8>,
    range: Vec<NodeRef>,
}

impl SlurpState {
    spec fn frame(&self) -> FrameModel {
        FrameModel {
            start: self.start_pattern@,
            end: self.end_pattern@,
            range: refs_model(self.range@),
        }
    }
}

/// The incremental tree builder the parser drives: the file under
/// construction plus the stack of unterminated delimiter opens.
struct TreeBuilder {
    root: Vec<NodeRef>,
    nodes: Vec<Node>,
    ranges: Vec<Vec<NodeRef>>,
    stack: Vec<SlurpState>,
}

impl TreeBuilder {
    spec fn file(&self) -> FileModel {
        FileModel {
            root: refs_model(self.root@),
            nodes: self.nodes@.map_values(|n: Node| n@),
            ranges: self.ranges@.map_values(|r: Vec<NodeRef>| refs_model(r@)),
        }
    }

    spec fn frames(&self) -> Seq<FrameModel> {
        self.stack@.map_values(|s: SlurpState| s.frame())
    }

    spec fn wf(&self) -> bool {
        builder_wf(self.file(), self.frames())
    }

    /// The builder's state as the specification-level parse state.
    spec fn state(&self) -> ParseState {
        ParseState { file: self.file(), stack: self.frames() }
    }

    /// The bytes the builder state stands for once flushed.
    spec fn out(&self) -> Seq<u8> {
        flush_out(self.file(), self.frames())
    }

    fn new() -> (b: TreeBuilder)
        ensures
            b.wf(),
            b.out() == Seq::<u8>::empty(),
            b.frames().len() == 0,
            b.file().nodes.len() == 0,
            b.file().root.len() == 0,
            b.file().ranges.len() == 0,
            b.state() == initial_state(),
    {
        let b = TreeBuilder {
            root: Vec::new(),
            nodes: Vec::new(),
            ranges: Vec::new(),
            stack: Vec::new(),
        };
        proof {
            assert(b.file().root =~= Seq::<int>::empty());
            assert(b.file().nodes =~= Seq::<NodeModel>::empty());
            assert(b.file().ranges =~= Seq::<Seq<int>>::empty());
            assert(b.frames() =~= Seq::<FrameModel>::empty());
            assert(b.out() =~= Seq::<u8>::empty());
            assert(b.state() == initial_state());
        }
        b
    }

    /// Attach an existing node to the top frame, or to the root when no
    /// frame is open.
    fn add_node_ref(&mut self, noderef: NodeRef)
        requires
            old(self).wf(),
            (noderef as int) < old(self).file().nodes.len(),
        ensures
            final(self).wf(),
            final(self).file().nodes == old(self).file().nodes,
            final(self).file().ranges == old(self).file().ranges,
            frames_shape(old(self).frames(), final(self).frames()),
            final(self).out() == old(self).out() + ord_node(old(self).file(), noderef as int),
            final(self).state() == st_attach(old(self).state(), noderef as int),
    {
        let ghost m0 = self.file();
        let ghost fs0 = self.frames();
        if self.stack.is_empty() {
            self.root.push(noderef);
            proof {
                let m1 = self.file();
                assert(m1.nodes =~= m0.nodes);
                assert(m1.ranges =~= m0.ranges);
                assert(m1.root =~= m0.root.push(noderef as int));
                assert(self.frames() =~= fs0);
                assert(arena_extends(m0, m1));
                lemma_ord_list_append(m0, m1, m0.nodes.len() as int, m1.root);
                lemma_ord_list_snoc(m0, m0.nodes.len() as int, m0.root, noderef as int);
                assert(fs0.len() == 0);
                assert(frames_out(m1, fs0) == Seq::<u8>::empty());
                assert(frames_out(m0, fs0) == Seq::<u8>::empty());
                assert(flush_out(m1, fs0) =~= flush_out(m0, fs0) + ord_node(m0, noderef as int));
                assert forall|q: int| 0 <= q < m1.root.len() implies 0 <= #[trigger] m1.root[q]
                    < m1.nodes.len() by {
                    if q < m0.root.len() {
                        assert(valid_refs(m0, m0.root));
                    }
                }
                assert(m1.wf());
                assert(old(self).state() == (ParseState { file: m0, stack: fs0 }));
                assert(self.state() == st_attach(old(self).state(), noderef as int));
            }
        } else {
            let frame_opt = self.stack.pop();
            match frame_opt {
                Some(mut top) => {
                    top.range.push(noderef);
                    self.stack.push(top);
                    proof {
                        let m1 = self.file();
                        let fs1 = self.frames();
                        assert(m1.root =~= m0.root);
                        assert(m1.nodes =~= m0.nodes);
                        assert(m1.ranges =~= m0.ranges);
                        assert(m1 == m0);
                        assert(fs1.len() == fs0.len());
                        assert forall|k: int| 0 <= k < fs0.len() - 1 implies #[trigger] fs1[k]
                            == fs0[k] by {}
                        assert(fs1.last().start == fs0.last().start);
                        assert(fs1.last().end == fs0.last().end);
                        assert(fs1.last().range =~= fs0.last().range.push(noderef as int));
                        lemma_frames_out_attach(m0, fs0, fs1, noderef as int);
                        assert(ord_list(m0, m0.nodes.len() as int, m0.root) + (frames_out(m0, fs0)
                            + ord_node(m0, noderef as int)) =~= (ord_list(
                            m0,
                            m0.nodes.len() as int,
                            m0.root,
                        ) + frames_out(m0, fs0)) + ord_node(m0, noderef as int));
                        assert forall|k: int| 0 <= k < fs1.len() implies valid_refs(
                            m1,
                            (#[trigger] fs1[k]).range,
                        ) by {
                            if k < fs0.len() - 1 {
                                assert(valid_refs(m0, fs0[k].range));
                            } else {
                                assert(valid_refs(m0, fs0.last().range));
                                assert forall|q: int| 0 <= q < fs1[k].range.len() implies 0 <= (
                                #[trigger] fs1[k].range[q]) < m1.nodes.len() by {
                                    if q < fs0.last().range.len() {
                                        assert(0 <= fs0.last().range[q] < m0.nodes.len());
                                    }
                                }
                            }
                        }
                        assert(fs1.last() == (FrameModel {
                            start: fs0.last().start,
                            end: fs0.last().end,
                            range: fs0.last().range.push(noderef as int),
                        }));
                        assert(fs1 =~= fs0.update(
                            fs0.len() - 1,
                            FrameModel {
                                start: fs0.last().start,
                                end: fs0.last().end,
                                range: fs0.last().range.push(noderef as int),
                            },
                        ));
                        assert(old(self).state() == (ParseState { file: m0, stack: fs0 }));
                        assert(self.state() == st_attach(old(self).state(), noderef as int));
                    }
                },
                None => {
                    proof {
                        assert(false);
                    }
                },
            }
        }
    }

    /// Append a node to the arena without attaching it anywhere.
    fn push_node(&mut self, node: Node) -> (nr: NodeRef)
        requires
            old(self).wf(),
            match node@.range_ref() {
                Some(r) => 0 <= r < old(self).file().ranges.len() && (forall|q: int|
                    0 <= q < old(self).file().nodes.len() ==> !references(
                        #[trigger] old(self).file().nodes[q],
                        r,
                    )),
                None => true,
            },
        ensures
            final(self).wf(),
            nr as int == old(self).file().nodes.len(),
            final(self).file().nodes == old(self).file().nodes.push(node@),
            final(self).file().ranges == old(self).file().ranges,
            final(self).file().root == old(self).file().root,
            final(self).frames() == old(self).frames(),
            final(self).out() == old(self).out(),
    {
        let ghost m0 = self.file();
        let ghost fs0 = self.frames();
        let nr = self.nodes.len();
        let ghost nv = node@;
        self.nodes.push(node);
        proof {
            let m1 = self.file();
            assert(m1.nodes =~= m0.nodes.push(nv));
            assert(m1.ranges =~= m0.ranges);
            assert(m1.root =~= m0.root);
            assert(self.frames() =~= fs0);
            assert(arena_extends(m0, m1));
            lemma_flush_out_extend(m0, m1, fs0);
            assert(ord_list(m1, m0.nodes.len() as int, m1.root) == ord_list(
                m1,
                m1.nodes.len() as int,
                m1.root,
            )) by {
                assert(all_below(m0.root, m0.nodes.len() as int));
                lemma_ord_list_bound(m1, m0.nodes.len() as int, m1.nodes.len() as int, m0.root);
            }
            // well-formedness of the grown file
            lemma_valid_refs_same_nodes(m0, m1, m0.root);
            assert forall|i: int| 0 <= i < m1.nodes.len() implies m1.node_wf(
                #[trigger] m1.nodes[i],
            ) by {
                if i < m0.nodes.len() {
                    assert(m0.node_wf(m0.nodes[i]));
                }
            }
            assert forall|r: int| 0 <= r < m1.ranges.len() implies valid_refs(
                m1,
                #[trigger] m1.ranges[r],
            ) by {
                lemma_valid_refs_same_nodes(m0, m1, m0.ranges[r]);
            }
            assert forall|i: int| 0 <= i < m1.nodes.len() implies match (
            #[trigger] m1.nodes[i]).range_ref() {
                Some(r) => 0 <= r < m1.ranges.len() && all_below(m1.ranges[r], i),
                None => true,
            } by {
                if i < m0.nodes.len() {
                    assert(m0.ordered());
                    assert(match m0.nodes[i].range_ref() {
                        Some(r) => 0 <= r < m0.ranges.len() && all_below(m0.ranges[r], i),
                        None => true,
                    });
                } else {
                    match nv.range_ref() {
                        Some(r) => {
                            assert(valid_refs(m0, m0.ranges[r]));
                            assert(all_below(m0.ranges[r], i));
                        },
                        None => {},
                    }
                }
            }
            assert forall|i: int, j: int, r: int|
                0 <= i < m1.nodes.len() && 0 <= j < m1.nodes.len() && #[trigger] references(
                    m1.nodes[i],
                    r,
                ) && #[trigger] references(m1.nodes[j], r) implies i == j by {
                if i < m0.nodes.len() && j < m0.nodes.len() {
                    assert(m0.unique_refs());
                    assert(references(m0.nodes[i], r) && references(m0.nodes[j], r) ==> i == j);
                }
            }
            assert forall|k: int| 0 <= k < fs0.len() implies valid_refs(
                m1,
                (#[trigger] fs0[k]).range,
            ) by {
                lemma_valid_refs_same_nodes(m0, m1, fs0[k].range);
            }
            assert(m1.wf());
            assert(m1.ordered());
            assert(m1.unique_refs());
        }
        nr
    }

    /// Append a finished range to the range arena.
    fn push_range(&mut self, range: Vec<NodeRef>) -> (rr: RangeRef)
        requires
            old(self).wf(),
            valid_refs(old(self).file(), refs_model(range@)),
        ensures
            final(self).wf(),
            rr as int == old(self).file().ranges.len(),
            final(self).file().ranges == old(self).file().ranges.push(refs_model(range@)),
            final(self).file().nodes == old(self).file().nodes,
            final(self).file().root == old(self).file().root,
            final(self).frames() == old(self).frames(),
            final(self).out() == old(self).out(),
            forall|q: int|
                0 <= q < final(self).file().nodes.len() ==> !references(
                    #[trigger] final(self).file().nodes[q],
                    rr as int,
                ),
    {
        let ghost m0 = self.file();
        let ghost fs0 = self.frames();
        let rr = self.ranges.len();
        let ghost rv = refs_model(range@);
        self.ranges.push(range);
        proof {
            let m1 = self.file();
            assert(m1.ranges =~= m0.ranges.push(rv));
            assert(m1.nodes =~= m0.nodes);
            assert(m1.root =~= m0.root);
            assert(self.frames() =~= fs0);
            assert(arena_extends(m0, m1));
            lemma_flush_out_extend(m0, m1, fs0);
            assert forall|q: int| 0 <= q < m1.nodes.len() implies !references(
                #[trigger] m1.nodes[q],
                rr as int,
            ) by {
                assert(m0.node_wf(m0.nodes[q]));
            }
            assert forall|i: int| 0 <= i < m1.nodes.len() implies m1.node_wf(
                #[trigger] m1.nodes[i],
            ) by {
                assert(m0.node_wf(m0.nodes[i]));
            }
            assert forall|r: int| 0 <= r < m1.ranges.len() implies valid_refs(
                m1,
                #[trigger] m1.ranges[r],
            ) by {
                if r < m0.ranges.len() {
                    lemma_valid_refs_same_nodes(m0, m1, m0.ranges[r]);
                } else {
                    lemma_valid_refs_same_nodes(m0, m1, rv);
                }
            }
            lemma_valid_refs_same_nodes(m0, m1, m0.root);
            assert forall|i: int| 0 <= i < m1.nodes.len() implies match (
            #[trigger] m1.nodes[i]).range_ref() {
                Some(r) => 0 <= r < m1.ranges.len() && all_below(m1.ranges[r], i),
                None => true,
            } by {
                assert(m0.ordered());
                assert(match m0.nodes[i].range_ref() {
                    Some(r) => 0 <= r < m0.ranges.len() && all_below(m0.ranges[r], i),
                    None => true,
                });
            }
            assert forall|i: int, j: int, r: int|
                0 <= i < m1.nodes.len() && 0 <= j < m1.nodes.len() && #[trigger] references(
                    m1.nodes[i],
                    r,
                ) && #[trigger] references(m1.nodes[j], r) implies i == j by {
                assert(m0.unique_refs());
                assert(references(m0.nodes[i], r) && references(m0.nodes[j], r) ==> i == j);
            }
            assert forall|k: int| 0 <= k < fs0.len() implies valid_refs(
                m1,
                (#[trigger] fs0[k]).range,
            ) by {
                lemma_valid_refs_same_nodes(m0, m1, fs0[k].range);
            }
            assert(m1.wf());
        }
        rr
    }

    /// Emit a literal token; empty tokens are dropped.
    fn push_token(&mut self, token: Vec<u8>)
        requires
            old(self).wf(),
        ensures
            final(self).wf(),
            final(self).out() == old(self).out() + token@,
            frames_shape(old(self).frames(), final(self).frames()),
            final(self).file().ranges == old(self).file().ranges,
            arena_extends(old(self).file(), final(self).file()),
            forall|q: int|
                old(self).file().nodes.len() <= q < final(self).file().nodes.len() ==> (
                #[trigger] final(self).file().nodes[q]) matches NodeModel::Token(_),
            token@.len() > 0 ==> final(self).file().nodes == old(self).file().nodes.push(
                NodeModel::Token(token@),
            ),
            token@.len() == 0 ==> final(self).file().nodes == old(self).file().nodes,
            final(self).state() == st_token(old(self).state(), token@),
    {
        let ghost m0 = self.file();
        let ghost fs0 = self.frames();
        if token.len() == 0 {
            proof {
                assert(self.out() =~= old(self).out() + token@);
                assert(arena_extends(m0, m0));
                assert(self.state() == st_token(old(self).state(), token@));
            }
            return;
        }
        let ghost t = token@;
        let nr = self.push_node(Node::Token(token));
        let ghost m1 = self.file();
        self.add_node_ref(nr);
        proof {
            assert(ord_node(m1, nr as int) == t);
            assert(arena_extends(m0, self.file()));
            assert(m1 == (FileModel { root: m0.root, nodes: m0.nodes.push(NodeModel::Token(t)), ranges: m0.ranges }));
            assert(self.state() == st_attach(ParseState { file: m1, stack: fs0 }, nr as int));
            assert(old(self).state() == (ParseState { file: m0, stack: fs0 }));
            assert(self.state() == st_token(old(self).state(), t));
        }
    }

    /// Open a new delimiter frame.
    fn start_recurse(&mut self, start_pattern: Vec<u8>, end_pattern: Vec<u8>)
        requires
            old(self).wf(),
        ensures
            final(self).wf(),
            final(self).file() == old(self).file(),
            final(self).frames() == old(self).frames().push(
                (FrameModel { start: start_pattern@, end: end_pattern@, range: Seq::empty() }),
            ),
            final(self).out() == old(self).out() + start_pattern@,
            final(self).state() == st_start(old(self).state(), start_pattern@, end_pattern@),
    {
        let ghost m0 = self.file();
        let ghost fs0 = self.frames();
        let ghost f = FrameModel { start: start_pattern@, end: end_pattern@, range: Seq::empty() };
        self.stack.push(SlurpState { start_pattern, end_pattern, range: Vec::new() });
        proof {
            let m1 = self.file();
            assert(m1.root =~= m0.root);
            assert(m1.nodes =~= m0.nodes);
            assert(m1.ranges =~= m0.ranges);
            assert(m1 == m0);
            assert(self.frames().last().range =~= f.range);
            assert(self.frames() =~= fs0.push(f));
            lemma_frames_out_push(m0, fs0, f);
            assert(ord_list(m0, m0.nodes.len() as int, f.range) == Seq::<u8>::empty());
            assert(ord_list(m0, m0.nodes.len() as int, m0.root) + (frames_out(m0, fs0) + f.start
                + Seq::<u8>::empty()) =~= (ord_list(m0, m0.nodes.len() as int, m0.root)
                + frames_out(m0, fs0)) + f.start);
            assert(valid_refs(m0, f.range));
        }
    }

    /// Close a delimiter region: if the top frame expects this close
    /// pattern, pop it into a fresh range and delimiter node; otherwise the
    /// close pattern is a plain token.
    fn end_recurse(&mut self, end_pattern: Vec<u8>)
        requires
            old(self).wf(),
        ensures
            final(self).wf(),
            final(self).out() == old(self).out() + end_pattern@,
            ({
                let fs0 = old(self).frames();
                let m0 = old(self).file();
                if fs0.len() > 0 && fs0.last().end == end_pattern@ {
                    &&& frames_shape(fs0.drop_last(), final(self).frames())
                    &&& final(self).file().nodes == m0.nodes.push(
                        NodeModel::Delim(fs0.last().start, m0.ranges.len() as int, end_pattern@),
                    )
                    &&& final(self).file().ranges == m0.ranges.push(fs0.last().range)
                } else {
                    &&& frames_shape(fs0, final(self).frames())
                    &&& final(self).file().ranges == m0.ranges
                    &&& (end_pattern@.len() > 0 ==> final(self).file().nodes == m0.nodes.push(
                        NodeModel::Token(end_pattern@),
                    ))
                    &&& (end_pattern@.len() == 0 ==> final(self).file().nodes == m0.nodes)
                }
            }),
            final(self).state() == st_end(old(self).state(), end_pattern@),
    {
        let ghost m0 = self.file();
        let ghost fs0 = self.frames();
        let matched = if self.stack.len() > 0 {
            let idx = self.stack.len() - 1;
            proof {
                assert(fs0.last() == self.stack@[self.stack@.len() - 1].frame());
            }
            bytes_eq(&self.stack[idx].end_pattern, &end_pattern)
        } else {
            false
        };
        proof {
            assert(matched <==> (fs0.len() > 0 && fs0.last().end == end_pattern@));
        }
        if matched {
            let frame_opt = self.stack.pop();
            match frame_opt {
                Some(top) => {
                    proof {
                        assert(top.frame() == fs0.last());
                    }
                    let SlurpState { start_pattern, end_pattern: _expected, range } = top;
                    proof {
                        assert(self.frames() =~= fs0.drop_last());
                        assert(fs0 =~= fs0.drop_last().push(fs0.last()));
                        lemma_frames_out_push(m0, fs0.drop_last(), fs0.last());
                        assert forall|k: int| 0 <= k < fs0.drop_last().len() implies valid_refs(
                            m0,
                            (#[trigger] fs0.drop_last()[k]).range,
                        ) by {
                            assert(valid_refs(m0, fs0[k].range));
                        }
                        assert(valid_refs(m0, refs_model(range@))) by {
                            assert(valid_refs(m0, fs0.last().range));
                        }
                    }
                    let rr = self.push_range(range);
                    let ghost m1 = self.file();
                    let nr = self.push_node(Node::Delim(start_pattern, rr, end_pattern));
                    let ghost m2 = self.file();
                    self.add_node_ref(nr);
                    proof {
                        let top_f = fs0.last();
                        let bound0 = m0.nodes.len() as int;
                        assert(m2.nodes[nr as int] == NodeModel::Delim(
                            top_f.start,
                            rr as int,
                            top_f.end,
                        ));
                        assert(m2.ranges[rr as int] == top_f.range);
                        assert(arena_extends(m0, m2));
                        lemma_ord_list_append(m0, m2, bound0, top_f.range);
                        assert(all_below(top_f.range, bound0)) by {
                            assert(valid_refs(m0, top_f.range));
                        }
                        assert(ord_range(m2, nr as int, rr as int) == ord_list(
                            m0,
                            bound0,
                            top_f.range,
                        ));
                        assert(ord_node(m2, nr as int) == top_f.start + ord_list(
                            m0,
                            bound0,
                            top_f.range,
                        ) + top_f.end);
                        let base = flush_out(m0, fs0.drop_last());
                        let mid = ord_list(m0, bound0, top_f.range);
                        assert(old(self).out() == base + top_f.start + mid) by {
                            assert(ord_list(m0, bound0, m0.root) + (frames_out(
                                m0,
                                fs0.drop_last(),
                            ) + top_f.start + mid) =~= (ord_list(m0, bound0, m0.root) + frames_out(
                                m0,
                                fs0.drop_last(),
                            )) + top_f.start + mid);
                        }
                        assert(self.out() == base + (top_f.start + mid + top_f.end));
                        assert(base + (top_f.start + mid + top_f.end) =~= ((base + top_f.start)
                            + mid) + top_f.end);
                        assert((base + top_f.start) + mid =~= base + top_f.start + mid);
                        assert(self.out() =~= old(self).out() + end_pattern@);
                        assert(frames_shape(fs0.drop_last(), self.frames()));
                        assert(self.file().nodes == m0.nodes.push(
                            NodeModel::Delim(
                                fs0.last().start,
                                m0.ranges.len() as int,
                                end_pattern@,
                            ),
                        ));
                        assert(self.file().ranges == m0.ranges.push(fs0.last().range));
                        assert(m2 == (FileModel {
                            root: m0.root,
                            nodes: m0.nodes.push(
                                NodeModel::Delim(top_f.start, m0.ranges.len() as int, top_f.end),
                            ),
                            ranges: m0.ranges.push(top_f.range),
                        }));
                        assert(self.state() == st_attach(
                            ParseState { file: m2, stack: fs0.drop_last() },
                            nr as int,
                        ));
                        assert(old(self).state() == (ParseState { file: m0, stack: fs0 }));
                        assert(self.state() == st_end(old(self).state(), end_pattern@));
                    }
                },
                None => {
                    proof {
                        assert(false);
                    }
                },
            }
        } else {
            self.push_token(end_pattern);
        }
    }

    /// Flush the remaining open frames: each unmatched open pattern becomes
    /// a literal token and its collected children are re-attached one level
    /// down.
    fn finish(&mut self)
        requires
            old(self).wf(),
        ensures
            final(self).wf(),
            final(self).frames().len() == 0,
            final(self).out() == old(self).out(),
            final(self).file().ranges == old(self).file().ranges,
            arena_extends(old(self).file(), final(self).file()),
            forall|q: int|
                old(self).file().nodes.len() <= q < final(self).file().nodes.len() ==> (
                #[trigger] final(self).file().nodes[q]) matches NodeModel::Token(_),
            final(self).file().nodes.len() <= old(self).file().nodes.len() + old(
                self,
            ).frames().len(),
            old(self).frames().len() == 0 ==> final(self).file() == old(self).file(),
            final(self).state() == st_finish(old(self).state()),
    {
        let ghost orig = self.file();
        let ghost fs_orig = self.frames();
        let ghost out0 = self.out();
        let ghost st0 = self.state();
        while self.stack.len() > 0
            invariant
                self.wf(),
                self.out() == out0,
                self.file().ranges == orig.ranges,
                arena_extends(orig, self.file()),
                orig == old(self).file(),
                fs_orig == old(self).frames(),
                out0 == old(self).out(),
                st0 == old(self).state(),
                st_finish(self.state()) == st_finish(st0),
                self.file().nodes.len() + self.frames().len() <= orig.nodes.len()
                    + fs_orig.len(),
                fs_orig.len() == 0 ==> (self.frames().len() == 0 && self.file() == orig),
                forall|q: int|
                    orig.nodes.len() <= q < self.file().nodes.len() ==> (
                    #[trigger] self.file().nodes[q]) matches NodeModel::Token(_),
            decreases self.stack.len(),
        {
            proof {
                assert(self.frames().len() == self.stack@.len());
            }
            let ghost m_e = self.file();
            let ghost fs_e = self.frames();
            let ghost out_e = self.out();
            let frame_opt = self.stack.pop();
            match frame_opt {
                Some(top) => {
                    let SlurpState { start_pattern, end_pattern: _unused, range } = top;
                    proof {
                        assert(self.frames() =~= fs_e.drop_last());
                        assert(fs_e =~= fs_e.drop_last().push(fs_e.last()));
                        lemma_frames_out_push(m_e, fs_e.drop_last(), fs_e.last());
                        assert forall|k: int| 0 <= k < fs_e.drop_last().len() implies valid_refs(
                            m_e,
                            (#[trigger] fs_e.drop_last()[k]).range,
                        ) by {
                            assert(valid_refs(m_e, fs_e[k].range));
                        }
                        assert(valid_refs(m_e, fs_e.last().range));
                    }
                    let ghost top_f = fs_e.last();
                    let ghost bound_e = m_e.nodes.len() as int;
                    let ghost base = flush_out(m_e, fs_e.drop_last());
                    proof {
                        assert(out_e == base + top_f.start + ord_list(m_e, bound_e, top_f.range))
                            by {
                            assert(ord_list(m_e, bound_e, m_e.root) + (frames_out(
                                m_e,
                                fs_e.drop_last(),
                            ) + top_f.start + ord_list(m_e, bound_e, top_f.range)) =~= (ord_list(
                                m_e,
                                bound_e,
                                m_e.root,
                            ) + frames_out(m_e, fs_e.drop_last())) + top_f.start + ord_list(
                                m_e,
                                bound_e,
                                top_f.range,
                            ));
                        }
                    }
                    proof {
                        assert(self.state() == (ParseState {
                            file: m_e,
                            stack: fs_e.drop_last(),
                        }));
                    }
                    self.push_token(start_pattern);
                    let ghost m_tok = self.file();
                    let ghost out_tok = self.out();
                    let ghost st_tok = self.state();
                    proof {
                        assert(st_tok == st_token(
                            ParseState { file: m_e, stack: fs_e.drop_last() },
                            top_f.start,
                        ));
                        assert(arena_extends(m_e, m_tok));
                        lemma_ord_list_bound(
                            m_tok,
                            bound_e,
                            m_tok.nodes.len() as int,
                            top_f.range,
                        );
                        lemma_ord_list_append(m_e, m_tok, bound_e, top_f.range);
                        assert(ord_list(m_tok, m_tok.nodes.len() as int, top_f.range) == ord_list(
                            m_e,
                            bound_e,
                            top_f.range,
                        ));
                    }
                    let mut k: usize = 0;
                    let num = range.len();
                    proof {
                        assert(refs_model(range@) == top_f.range);
                        assert(top_f.range.take(0) =~= Seq::<int>::empty());
                        assert(out_tok + Seq::<u8>::empty() =~= out_tok);
                    }
                    while k < num
                        invariant
                            self.wf(),
                            k <= num,
                            num == range@.len(),
                            refs_model(range@) == top_f.range,
                            valid_refs(m_tok, top_f.range),
                            nodes_wf(m_tok),
                            self.file().nodes == m_tok.nodes,
                            self.file().ranges == m_tok.ranges,
                            frames_shape(fs_e.drop_last(), self.frames()),
                            self.state() == st_attach_all(st_tok, top_f.range.take(k as int)),
                            self.out() == out_tok + ord_list(
                                m_tok,
                                m_tok.nodes.len() as int,
                                top_f.range.take(k as int),
                            ),
                        decreases num - k,
                    {
                        let nr = range[k];
                        proof {
                            assert(top_f.range[k as int] == nr as int);
                            assert(0 <= (nr as int) < m_tok.nodes.len());
                        }
                        let ghost m_cur = self.file();
                        let ghost st_cur = self.state();
                        self.add_node_ref(nr);
                        proof {
                            assert(arena_extends(m_tok, m_cur));
                            lemma_ord_node_append(m_tok, m_cur, nr as int);
                            lemma_ord_list_snoc(
                                m_tok,
                                m_tok.nodes.len() as int,
                                top_f.range.take(k as int),
                                nr as int,
                            );
                            assert(top_f.range.take(k + 1) =~= top_f.range.take(k as int).push(
                                nr as int,
                            ));
                            lemma_st_attach_all_snoc(st_tok, top_f.range.take(k as int), nr as int);
                            assert(self.state() == st_attach(st_cur, nr as int));
                        }
                        k = k + 1;
                    }
                    proof {
                        assert(top_f.range.take(num as int) =~= top_f.range);
                        assert(self.out() == out_tok + ord_list(
                            m_tok,
                            m_tok.nodes.len() as int,
                            top_f.range,
                        ));
                        assert(out_tok == base + top_f.start);
                        assert((base + top_f.start) + ord_list(m_e, bound_e, top_f.range) =~= base
                            + top_f.start + ord_list(m_e, bound_e, top_f.range));
                        assert(self.out() == out_e);
                        assert(self.state() == st_attach_all(st_tok, top_f.range));
                        assert(st_finish(ParseState { file: m_e, stack: fs_e }) == st_finish(
                            self.state(),
                        )) by {
                            assert(fs_e.len() > 0);
                            assert((ParseState { file: m_e, stack: fs_e }).stack.last() == top_f);
                            assert((ParseState {
                                file: (ParseState { file: m_e, stack: fs_e }).file,
                                stack: (ParseState { file: m_e, stack: fs_e }).stack.drop_last(),
                            }) == (ParseState { file: m_e, stack: fs_e.drop_last() }));
                        }
                        assert(st_finish(self.state()) == st_finish(st0));
                    }
                },
                None => {
                    proof {
                        assert(false);
                    }
                },
            }
        }
        proof {
            assert(self.frames().len() == self.stack@.len());
            assert(st_finish(self.state()) == self.state());
        }
    }
}

pub(crate) fn sub_vec(buf: &[u8], a: usize, b: usize) -> (out: Vec<u8>)
    requires
        a <= b <= buf@.len(),
    ensures
        out@ == buf@.subrange(a as int, b as int),
{
    slice_to_vec(slice_subrange(buf, a, b))
}

fn starts_with_at(buf: &[u8], at: usize, pat: &Vec<u8>) -> (r: bool)
    requires
        (at as int) <= buf@.len(),
    ensures
        r <==> ((at as int) + pat@.len() <= buf@.len() && buf@.subrange(
            at as int,
            at as int + pat@.len(),
        ) == pat@),
{
    if buf.len() - at < pat.len() {
        return false;
    }
    let mut i: usize = 0;
    while i < pat.len()
        invariant
            i <= pat@.len(),
            (at as int) + pat@.len() <= buf@.len(),
            buf@.len() <= usize::MAX,
            forall|q: int| 0 <= q < i ==> buf@[at + q] == pat@[q],
        decreases pat@.len() - i,
    {
        if buf[at + i] != pat[i] {
            proof {
                assert(buf@.subrange(at as int, at as int + pat@.len())[i as int] == buf@[at + i]);
            }
            return false;
        }
        i = i + 1;
    }
    proof {
        assert(buf@.subrange(at as int, at as int + pat@.len()) =~= pat@);
    }
    true
}

/// The pattern `pat` occurs in `s` at position `i`.
pub open spec fn match_here(s: Seq<u8>, i: int, pat: Seq<u8>) -> bool {
    0 <= i && i + pat.len() <= s.len() && s.subrange(i, i + pat.len()) == pat
}

/// The rule's open or close pattern occurs at position `i`.
pub open spec fn def_delim_hit(def: GrammarDefModel, s: Seq<u8>, i: int) -> bool {
    match def {
        GrammarDefModel::Delim(a, b) => match_here(s, i, a) || match_here(s, i, b),
        GrammarDefModel::Breaker(_) => false,
    }
}

/// The rule is a breaker whose pattern occurs at position `i`.
pub open spec fn def_breaker_hit(def: GrammarDefModel, s: Seq<u8>, i: int) -> bool {
    match def {
        GrammarDefModel::Delim(_, _) => false,
        GrammarDefModel::Breaker(p) => match_here(s, i, p),
    }
}

/// Some delimiter rule matches at position `i`.
pub open spec fn delim_hit(g: GrammarModel, s: Seq<u8>, i: int) -> bool {
    exists|d: int| 0 <= d < g.defs.len() && def_delim_hit(#[trigger] g.defs[d], s, i)
}

/// Some whitespace pattern matches at position `i`.
pub open spec fn ws_hit(g: GrammarModel, s: Seq<u8>, i: int) -> bool {
    exists|w: int| 0 <= w < g.whitespace.len() && match_here(s, i, #[trigger] g.whitespace[w])
}

/// Some breaker rule matches at position `i`.
pub open spec fn breaker_hit(g: GrammarModel, s: Seq<u8>, i: int) -> bool {
    exists|d: int| 0 <= d < g.defs.len() && def_breaker_hit(#[trigger] g.defs[d], s, i)
}

/// Scanning from `base`, something matches at position `i`: a delimiter or
/// whitespace pattern anywhere, a breaker only beyond the first position.
pub open spec fn scan_hit(g: GrammarModel, s: Seq<u8>, base: int, i: int) -> bool {
    delim_hit(g, s, i) || ws_hit(g, s, i) || (i > base && breaker_hit(g, s, i))
}

/// Specification-level image of a scan event. Positions are absolute
/// offsets into the scanned buffer.
pub enum EventModel {
    /// The bytes from the scan base up to `split` form a token; scanning
    /// resumes at `split`.
    Break { split: int },
    /// A whitespace pattern of length `len` at `at`.
    Tokenizer { at: int, len: int },
    /// A delimiter opens at `at`; `close` is the pattern expected to end it.
    DelimStart { at: int, len: int, close: Seq<u8> },
    /// A close pattern of length `len` at `at`.
    DelimEnd { at: int, len: int },
}

/// The first delimiter rule at or after index `d` whose open or close
/// pattern occurs at position `i`.
pub open spec fn find_delim_def(defs: Seq<GrammarDefModel>, s: Seq<u8>, i: int, d: int) -> Option<
    int,
>
    decreases defs.len() - d,
{
    if d < 0 || d >= defs.len() {
        None
    } else if def_delim_hit(defs[d], s, i) {
        Some(d)
    } else {
        find_delim_def(defs, s, i, d + 1)
    }
}

/// The first whitespace pattern at or after index `w` that occurs at
/// position `i`.
pub open spec fn find_ws(ws: Seq<Seq<u8>>, s: Seq<u8>, i: int, w: int) -> Option<int>
    decreases ws.len() - w,
{
    if w < 0 || w >= ws.len() {
        None
    } else if match_here(s, i, ws[w]) {
        Some(w)
    } else {
        find_ws(ws, s, i, w + 1)
    }
}

/// The event the scanner yields when searching from position `i`, with
/// breakers suppressed at the scan base.
pub open spec fn spec_scan_from(g: GrammarModel, s: Seq<u8>, base: int, i: int) -> EventModel
    decreases s.len() - i,
{
    if i < base || i >= s.len() {
        EventModel::Break { split: s.len() as int }
    } else {
        match find_delim_def(g.defs, s, i, 0) {
            Some(d) => {
                let def = g.defs[d];
                if match_here(s, i, def.rule_open()) {
                    EventModel::DelimStart {
                        at: i,
                        len: def.rule_open().len() as int,
                        close: def.rule_close(),
                    }
                } else {
                    EventModel::DelimEnd { at: i, len: def.rule_close().len() as int }
                }
            },
            None => match find_ws(g.whitespace, s, i, 0) {
                Some(w) => EventModel::Tokenizer { at: i, len: g.whitespace[w].len() as int },
                None => if i > base && breaker_hit(g, s, i) {
                    EventModel::Break { split: i }
                } else {
                    spec_scan_from(g, s, base, i + 1)
                },
            },
        }
    }
}

/// The event the scanner yields from position `base`.
pub open spec fn spec_scan(g: GrammarModel, s: Seq<u8>, base: int) -> EventModel {
    spec_scan_from(g, s, base, base)
}

proof fn lemma_find_delim_none(defs: Seq<GrammarDefModel>, s: Seq<u8>, i: int, d: int)
    requires
        0 <= d,
        forall|d2: int| d <= d2 < defs.len() ==> !def_delim_hit(#[trigger] defs[d2], s, i),
    ensures
        find_delim_def(defs, s, i, d) is None,
    decreases defs.len() - d,
{
    if d < defs.len() {
        lemma_find_delim_none(defs, s, i, d + 1);
    }
}

proof fn lemma_find_delim_some(defs: Seq<GrammarDefModel>, s: Seq<u8>, i: int, lo: int, d: int)
    requires
        0 <= lo <= d < defs.len(),
        def_delim_hit(defs[d], s, i),
        forall|d2: int| lo <= d2 < d ==> !def_delim_hit(#[trigger] defs[d2], s, i),
    ensures
        find_delim_def(defs, s, i, lo) == Some(d),
    decreases d - lo,
{
    if lo < d {
        lemma_find_delim_some(defs, s, i, lo + 1, d);
    }
}

proof fn lemma_find_ws_none(ws: Seq<Seq<u8>>, s: Seq<u8>, i: int, w: int)
    requires
        0 <= w,
        forall|w2: int| w <= w2 < ws.len() ==> !match_here(s, i, #[trigger] ws[w2]),
    ensures
        find_ws(ws, s, i, w) is None,
    decreases ws.len() - w,
{
    if w < ws.len() {
        lemma_find_ws_none(ws, s, i, w + 1);
    }
}

proof fn lemma_find_ws_some(ws: Seq<Seq<u8>>, s: Seq<u8>, i: int, lo: int, w: int)
    requires
        0 <= lo <= w < ws.len(),
        match_here(s, i, ws[w]),
        forall|w2: int| lo <= w2 < w ==> !match_here(s, i, #[trigger] ws[w2]),
    ensures
        find_ws(ws, s, i, lo) == Some(w),
    decreases w - lo,
{
    if lo < w {
        lemma_find_ws_some(ws, s, i, lo + 1, w);
    }
}

/// With nothing to match at position `k`, the scan moves on by one.
proof fn lemma_spec_scan_step(g: GrammarModel, s: Seq<u8>, base: int, k: int)
    requires
        0 <= base <= k < s.len(),
        !scan_hit(g, s, base, k),
    ensures
        spec_scan_from(g, s, base, k) == spec_scan_from(g, s, base, k + 1),
{
    assert forall|d2: int| 0 <= d2 < g.defs.len() implies !def_delim_hit(
        #[trigger] g.defs[d2],
        s,
        k,
    ) by {
        if def_delim_hit(g.defs[d2], s, k) {
            assert(delim_hit(g, s, k));
        }
    }
    lemma_find_delim_none(g.defs, s, k, 0);
    assert forall|w2: int| 0 <= w2 < g.whitespace.len() implies !match_here(
        s,
        k,
        #[trigger] g.whitespace[w2],
    ) by {
        if match_here(s, k, g.whitespace[w2]) {
            assert(ws_hit(g, s, k));
        }
    }
    lemma_find_ws_none(g.whitespace, s, k, 0);
}

/// With nothing to match anywhere in `[base, i)`, the scan from `base`
/// yields what the scan from `i` yields.
proof fn lemma_spec_scan_skip(g: GrammarModel, s: Seq<u8>, base: int, i: int)
    requires
        0 <= base <= i <= s.len(),
        forall|j: int| base <= j < i ==> !scan_hit(g, s, base, j),
    ensures
        spec_scan(g, s, base) == spec_scan_from(g, s, base, i),
    decreases i - base,
{
    if i > base {
        lemma_spec_scan_skip(g, s, base, i - 1);
        lemma_spec_scan_step(g, s, base, i - 1);
    }
}

/// The next event the scanner finds in `buf` from `pos` on.
enum ScanEvent {
    /// The bytes up to `split` form a token; scanning resumes at `split`.
    Break { split: usize },
    /// A whitespace pattern at `at`: the prefix and the pattern itself both
    /// become tokens.
    Tokenizer { at: usize, len: usize },
    /// A delimiter opens at `at`; `close` is the pattern expected to end it.
    DelimStart { at: usize, len: usize, close: Vec<u8> },
    /// A close pattern appears at `at`.
    DelimEnd { at: usize, len: usize },
}

/// Scan forward from `pos`, trying at each position the delimiter rules,
/// then the whitespace patterns, then (beyond the first position) the
/// breakers; with nothing found the rest of the buffer is one token. The
/// event returned is the first match in this order: no rule matches at an
/// earlier position, and no higher-priority rule at the same position.
fn scan_next(grammar: &Grammar, buf: &[u8], pos: usize) -> (ev: ScanEvent)
    requires
        grammar@.wf(),
        (pos as int) < buf@.len(),
    ensures
        (match ev {
            ScanEvent::Break { split } => spec_scan(grammar@, buf@, pos as int)
                == (EventModel::Break { split: split as int }),
            ScanEvent::Tokenizer { at, len } => spec_scan(grammar@, buf@, pos as int)
                == (EventModel::Tokenizer { at: at as int, len: len as int }),
            ScanEvent::DelimStart { at, len, close } => spec_scan(grammar@, buf@, pos as int)
                == (EventModel::DelimStart { at: at as int, len: len as int, close: close@ }),
            ScanEvent::DelimEnd { at, len } => spec_scan(grammar@, buf@, pos as int)
                == (EventModel::DelimEnd { at: at as int, len: len as int }),
        }),
        match ev {
            ScanEvent::Break { split } => {
                &&& pos < split <= buf@.len()
                &&& forall|j: int| pos <= j < split ==> !scan_hit(grammar@, buf@, pos as int, j)
                &&& (split < buf@.len() ==> (breaker_hit(grammar@, buf@, split as int)
                    && !delim_hit(grammar@, buf@, split as int) && !ws_hit(
                    grammar@,
                    buf@,
                    split as int,
                )))
            },
            ScanEvent::Tokenizer { at, len } => {
                &&& pos <= at && 1 <= len && at + len <= buf@.len()
                &&& forall|j: int| pos <= j < at ==> !scan_hit(grammar@, buf@, pos as int, j)
                &&& !delim_hit(grammar@, buf@, at as int)
                &&& (exists|w: int|
                    {
                        &&& 0 <= w < grammar@.whitespace.len()
                        &&& (#[trigger] grammar@.whitespace[w]).len() == len
                        &&& match_here(buf@, at as int, grammar@.whitespace[w])
                        &&& forall|w2: int|
                            0 <= w2 < w ==> !match_here(buf@, at as int, grammar@.whitespace[w2])
                    })
            },
            ScanEvent::DelimStart { at, len, close } => {
                &&& pos <= at && 1 <= len && at + len <= buf@.len()
                &&& close@.len() >= 1
                &&& grammar@.is_delim_pair(buf@.subrange(at as int, at + len), close@)
                &&& forall|j: int| pos <= j < at ==> !scan_hit(grammar@, buf@, pos as int, j)
                &&& (exists|d: int|
                    {
                        &&& 0 <= d < grammar@.defs.len()
                        &&& #[trigger] grammar@.defs[d] == GrammarDefModel::Delim(
                            buf@.subrange(at as int, at + len),
                            close@,
                        )
                        &&& forall|d2: int|
                            0 <= d2 < d ==> !def_delim_hit(grammar@.defs[d2], buf@, at as int)
                    })
            },
            ScanEvent::DelimEnd { at, len } => {
                &&& pos <= at && 1 <= len && at + len <= buf@.len()
                &&& forall|j: int| pos <= j < at ==> !scan_hit(grammar@, buf@, pos as int, j)
                &&& (exists|d: int|
                    {
                        &&& 0 <= d < grammar@.defs.len()
                        &&& (#[trigger] grammar@.defs[d]).is_delim_rule()
                        &&& grammar@.defs[d].rule_close() == buf@.subrange(at as int, at + len)
                        &&& !match_here(buf@, at as int, grammar@.defs[d].rule_open())
                        &&& forall|d2: int|
                            0 <= d2 < d ==> !def_delim_hit(grammar@.defs[d2], buf@, at as int)
                    })
            },
        },
{
    let ghost g = grammar@;
    let ghost s = buf@;
    let n = buf.len();
    let mut i = pos;
    while i < n
        invariant
            pos <= i <= n,
            n == s.len(),
            s == buf@,
            g == grammar@,
            g.wf(),
            forall|j: int| pos <= j < i ==> !scan_hit(g, s, pos as int, j),
        decreases n - i,
    {
        let mut d: usize = 0;
        while d < grammar.defs.len()
            invariant
                d <= grammar.defs@.len(),
                pos <= i < n,
                n == s.len(),
                s == buf@,
                g == grammar@,
                g.wf(),
                g.defs.len() == grammar.defs@.len(),
                forall|j: int| pos <= j < i ==> !scan_hit(g, s, pos as int, j),
                forall|d2: int| 0 <= d2 < d ==> !def_delim_hit(#[trigger] g.defs[d2], s, i as int),
            decreases grammar.defs@.len() - d,
        {
            match &grammar.defs[d] {
                GrammarDef::Delim(start_pat, end_pat) => {
                    proof {
                        assert(g.defs[d as int] == GrammarDefModel::Delim(start_pat@, end_pat@));
                        assert(g.defs[d as int].wf());
                    }
                    if starts_with_at(buf, i, start_pat) {
                        proof {
                            lemma_spec_scan_skip(g, s, pos as int, i as int);
                            assert(def_delim_hit(g.defs[d as int], s, i as int));
                            lemma_find_delim_some(g.defs, s, i as int, 0, d as int);
                        }
                        return ScanEvent::DelimStart {
                            at: i,
                            len: start_pat.len(),
                            close: clone_bytes(end_pat),
                        };
                    }
                    if starts_with_at(buf, i, end_pat) {
                        proof {
                            lemma_spec_scan_skip(g, s, pos as int, i as int);
                            assert(def_delim_hit(g.defs[d as int], s, i as int));
                            lemma_find_delim_some(g.defs, s, i as int, 0, d as int);
                        }
                        return ScanEvent::DelimEnd { at: i, len: end_pat.len() };
                    }
                },
                GrammarDef::Breaker(_) => {},
            }
            d = d + 1;
        }
        proof {
            assert(!delim_hit(g, s, i as int));
        }
        let mut w: usize = 0;
        while w < grammar.whitespace.len()
            invariant
                w <= grammar.whitespace@.len(),
                pos <= i < n,
                n == s.len(),
                s == buf@,
                g == grammar@,
                g.wf(),
                g.whitespace.len() == grammar.whitespace@.len(),
                !delim_hit(g, s, i as int),
                forall|j: int| pos <= j < i ==> !scan_hit(g, s, pos as int, j),
                forall|w2: int| 0 <= w2 < w ==> !match_here(s, i as int, #[trigger] g.whitespace[w2]),
            decreases grammar.whitespace@.len() - w,
        {
            proof {
                assert(g.whitespace[w as int].len() > 0);
            }
            if starts_with_at(buf, i, &grammar.whitespace[w]) {
                proof {
                    lemma_spec_scan_skip(g, s, pos as int, i as int);
                    assert forall|d2: int| 0 <= d2 < g.defs.len() implies !def_delim_hit(
                        #[trigger] g.defs[d2],
                        s,
                        i as int,
                    ) by {
                        if def_delim_hit(g.defs[d2], s, i as int) {
                            assert(delim_hit(g, s, i as int));
                        }
                    }
                    lemma_find_delim_none(g.defs, s, i as int, 0);
                    lemma_find_ws_some(g.whitespace, s, i as int, 0, w as int);
                }
                return ScanEvent::Tokenizer { at: i, len: grammar.whitespace[w].len() };
            }
            w = w + 1;
        }
        proof {
            assert(!ws_hit(g, s, i as int));
        }
        if i > pos {
            let mut b: usize = 0;
            while b < grammar.defs.len()
                invariant
                    b <= grammar.defs@.len(),
                    pos < i < n,
                    n == s.len(),
                    s == buf@,
                    g == grammar@,
                    g.wf(),
                    g.defs.len() == grammar.defs@.len(),
                    !delim_hit(g, s, i as int),
                    !ws_hit(g, s, i as int),
                    forall|j: int| pos <= j < i ==> !scan_hit(g, s, pos as int, j),
                    forall|d2: int|
                        0 <= d2 < b ==> !def_breaker_hit(#[trigger] g.defs[d2], s, i as int),
                decreases grammar.defs@.len() - b,
            {
                match &grammar.defs[b] {
                    GrammarDef::Breaker(p) => {
                        proof {
                            assert(g.defs[b as int] == GrammarDefModel::Breaker(p@));
                        }
                        if starts_with_at(buf, i, p) {
                            proof {
                                assert(def_breaker_hit(g.defs[b as int], s, i as int));
                                lemma_spec_scan_skip(g, s, pos as int, i as int);
                                assert forall|d2: int|
                                    0 <= d2 < g.defs.len() implies !def_delim_hit(
                                    #[trigger] g.defs[d2],
                                    s,
                                    i as int,
                                ) by {
                                    if def_delim_hit(g.defs[d2], s, i as int) {
                                        assert(delim_hit(g, s, i as int));
                                    }
                                }
                                lemma_find_delim_none(g.defs, s, i as int, 0);
                                assert forall|w2: int|
                                    0 <= w2 < g.whitespace.len() implies !match_here(
                                    s,
                                    i as int,
                                    #[trigger] g.whitespace[w2],
                                ) by {
                                    if match_here(s, i as int, g.whitespace[w2]) {
                                        assert(ws_hit(g, s, i as int));
                                    }
                                }
                                lemma_find_ws_none(g.whitespace, s, i as int, 0);
                            }
                            return ScanEvent::Break { split: i };
                        }
                    },
                    GrammarDef::Delim(_, _) => {},
                }
                b = b + 1;
            }
            proof {
                assert(!breaker_hit(g, s, i as int));
            }
        }
        proof {
            assert(!scan_hit(g, s, pos as int, i as int));
        }
        i = i + 1;
    }
    proof {
        lemma_spec_scan_skip(g, s, pos as int, n as int);
    }
    ScanEvent::Break { split: n }
}

/// Every open frame's pattern pair is one of the grammar's delimiter rules.
spec fn frames_delims_ok(g: GrammarModel, frames: Seq<FrameModel>) -> bool {
    forall|k: int|
        0 <= k < frames.len() ==> g.is_delim_pair((#[trigger] frames[k]).start, frames[k].end)
}

/// Every delimiter node carries one of the grammar's delimiter pairs.
pub open spec fn nodes_delims_ok(g: GrammarModel, nodes: Seq<NodeModel>) -> bool {
    forall|i: int|
        0 <= i < nodes.len() && (#[trigger] nodes[i]).is_delim() ==> g.is_delim_pair(
            nodes[i].delim_parts().0,
            nodes[i].delim_parts().2,
        )
}

/// Parse `buf` under `grammar` into a tree that serializes back to `buf`
/// byte for byte. Parsing never fails; unmatched opens and closes are kept
/// as literal tokens. The tree built is exactly [`spec_parse`] of the
/// grammar and the buffer: the scanner's first-match events folded over the
/// empty state.
#[verifier::rlimit(100)]
pub fn slurp(grammar: &Grammar, buf: &[u8]) -> (out: ParsedFile)
    requires
        grammar@.wf(),
    ensures
        out@.wf(),
        out@.ordered(),
        out@.unique_refs(),
        spec_serialize(out@) == buf@,
        nodes_delims_ok(grammar@, out@.nodes),
        out@.nodes.len() <= 2 * buf@.len(),
        out@.ranges.len() <= buf@.len(),
        buf@.len() == 0 ==> (out@.nodes.len() == 0 && out@.root.len() == 0 && out@.ranges.len()
            == 0),
        out@ == spec_parse(grammar@, buf@),
{
    let ghost g = grammar@;
    let ghost s = buf@;
    let mut builder = TreeBuilder::new();
    let mut pos: usize = 0;
    let n = buf.len();
    let ghost folded = spec_parse_from(g, s, 0, initial_state());
    proof {
        assert(buf@.take(0) =~= Seq::<u8>::empty());
    }
    while pos < n
        invariant
            builder.wf(),
            pos <= n,
            n == buf@.len(),
            g == grammar@,
            s == buf@,
            g.wf(),
            builder.out() == buf@.take(pos as int),
            frames_delims_ok(g, builder.frames()),
            nodes_delims_ok(g, builder.file().nodes),
            builder.file().nodes.len() + builder.frames().len() <= 2 * pos,
            builder.file().ranges.len() <= pos,
            folded == spec_parse_from(g, s, 0, initial_state()),
            spec_parse_from(g, s, pos as int, builder.state()) == folded,
            n == 0 ==> (builder.file().nodes.len() == 0 && builder.file().root.len() == 0
                && builder.file().ranges.len() == 0 && builder.frames().len() == 0),
        decreases n - pos,
    {
        let ghost fs_pre = builder.frames();
        let ghost m_pre = builder.file();
        let ghost st_pre = builder.state();
        let ghost pos_pre = pos as int;
        let ev = scan_next(grammar, buf, pos);
        match ev {
            ScanEvent::Tokenizer { at, len } => {
                builder.push_token(sub_vec(buf, pos, at));
                builder.push_token(sub_vec(buf, at, at + len));
                proof {
                    assert(buf@.take(pos as int) + buf@.subrange(pos as int, at as int)
                        + buf@.subrange(at as int, at + len) =~= buf@.take(at + len));
                    assert(builder.state() == st_step(g, s, pos_pre, st_pre));
                    assert(spec_parse_from(g, s, at + len, builder.state()) == folded);
                }
                pos = at + len;
            },
            ScanEvent::DelimStart { at, len, close } => {
                let ghost close_v = close@;
                builder.push_token(sub_vec(buf, pos, at));
                let open = sub_vec(buf, at, at + len);
                let ghost open_v = open@;
                builder.start_recurse(open, close);
                proof {
                    assert(buf@.take(pos as int) + buf@.subrange(pos as int, at as int) + open_v
                        =~= buf@.take(at + len));
                    assert(builder.state() == st_step(g, s, pos_pre, st_pre));
                    assert(spec_parse_from(g, s, at + len, builder.state()) == folded);
                    assert(builder.frames().last().start == open_v);
                    assert(builder.frames().last().end == close_v);
                    assert(g.is_delim_pair(open_v, close_v));
                    assert forall|k: int| 0 <= k < builder.frames().len() implies g.is_delim_pair(
                        (#[trigger] builder.frames()[k]).start,
                        builder.frames()[k].end,
                    ) by {
                        if k < builder.frames().len() - 1 {
                            assert(builder.frames()[k].start == fs_pre[k].start);
                        }
                    }
                }
                pos = at + len;
            },
            ScanEvent::DelimEnd { at, len } => {
                builder.push_token(sub_vec(buf, pos, at));
                let ghost fs_mid = builder.frames();
                let ghost m_mid = builder.file();
                let closing = sub_vec(buf, at, at + len);
                let ghost closing_v = closing@;
                builder.end_recurse(closing);
                proof {
                    assert(buf@.take(pos as int) + buf@.subrange(pos as int, at as int) + closing_v
                        =~= buf@.take(at + len));
                    if fs_mid.len() > 0 && fs_mid.last().end == closing_v {
                        assert(g.is_delim_pair(fs_mid.last().start, fs_mid.last().end));
                        assert forall|q: int|
                            0 <= q < builder.file().nodes.len() && (
                            #[trigger] builder.file().nodes[q]).is_delim() implies g.is_delim_pair(
                            builder.file().nodes[q].delim_parts().0,
                            builder.file().nodes[q].delim_parts().2,
                        ) by {
                            if q < m_mid.nodes.len() {
                                assert(m_mid.nodes[q].is_delim() ==> g.is_delim_pair(
                                    m_mid.nodes[q].delim_parts().0,
                                    m_mid.nodes[q].delim_parts().2,
                                ));
                            }
                        }
                        assert forall|k: int|
                            0 <= k < builder.frames().len() implies g.is_delim_pair(
                            (#[trigger] builder.frames()[k]).start,
                            builder.frames()[k].end,
                        ) by {
                            assert(builder.frames()[k].start == fs_mid.drop_last()[k].start);
                            assert(fs_mid.drop_last()[k] == fs_mid[k]);
                        }
                    } else {
                        assert forall|k: int|
                            0 <= k < builder.frames().len() implies g.is_delim_pair(
                            (#[trigger] builder.frames()[k]).start,
                            builder.frames()[k].end,
                        ) by {
                            assert(builder.frames()[k].start == fs_mid[k].start);
                        }
                    }
                    assert(builder.state() == st_step(g, s, pos_pre, st_pre)) by {
                        assert(builder.state() == st_end(
                            st_token(st_pre, s.subrange(pos_pre, at as int)),
                            s.subrange(at as int, at + len),
                        ));
                    }
                    assert(spec_parse_from(g, s, at + len, builder.state()) == folded);
                }
                pos = at + len;
            },
            ScanEvent::Break { split } => {
                builder.push_token(sub_vec(buf, pos, split));
                proof {
                    assert(buf@.take(pos as int) + buf@.subrange(pos as int, split as int)
                        =~= buf@.take(split as int));
                    assert(builder.state() == st_step(g, s, pos_pre, st_pre));
                    assert(spec_parse_from(g, s, split as int, builder.state()) == folded);
                }
                pos = split;
            },
        }
    }
    let ghost m_loop = builder.file();
    proof {
        assert(spec_parse_from(g, s, pos as int, builder.state()) == builder.state());
        assert(builder.state() == folded);
    }
    builder.finish();
    proof {
        assert(buf@.take(n as int) =~= buf@);
        assert(builder.state() == st_finish(folded));
        assert(builder.file() == spec_parse(g, s));
        assert forall|q: int|
            0 <= q < builder.file().nodes.len() && (#[trigger] builder.file().nodes[q]).is_delim()
            implies g.is_delim_pair(
            builder.file().nodes[q].delim_parts().0,
            builder.file().nodes[q].delim_parts().2,
        ) by {
            if q < m_loop.nodes.len() {
                assert(builder.file().nodes[q] == m_loop.nodes[q]);
            }
        }
        lemma_serialize_ordered(builder.file());
        assert(frames_out(builder.file(), builder.frames()) == Seq::<u8>::empty()) by {
            assert(builder.frames() =~= Seq::<FrameModel>::empty());
        }
        assert(ord_list(builder.file(), builder.file().nodes.len() as int, builder.file().root)
            + Seq::<u8>::empty() =~= ord_list(
            builder.file(),
            builder.file().nodes.len() as int,
            builder.file().root,
        ));
        assert(spec_serialize(builder.file()) == buf@);
    }
    let ghost m_fin = builder.file();
    let TreeBuilder { root, nodes, ranges, stack: _ } = builder;
    let out = ParsedFile { root, nodes, ranges };
    proof {
        assert(out@ == m_fin);
    }
    out
}

} // verus!
