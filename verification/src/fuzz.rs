//! The fuzzer: a mutable copy of a parsed file, the catalogue of structural
//! mutations over it, and serialization back to bytes through a sink.

use vstd::prelude::*;
use crate::grammar::Delim;
use crate::model::{
    all_unseen, arenas_grow, count_false, has_delim, lemma_count_false_update,
    lemma_repeated_snoc, lemma_ser_list_snoc, lemma_valid_refs_same_nodes, lemma_wf_from_parts,
    repeated, ser_list, ser_node, ser_range, spec_serialize, valid_refs, FileModel, NodeModel,
};
use crate::parse::{
    bytes_eq, clone_bytes, lemma_refs_model_multiset, refs_model, Node, NodeRef, ParsedFile,
    RangeRef,
};
use crate::rng::Prng;

verus! {

/// `s` cut down to at most `cap` bytes.
pub open spec fn truncated(s: Seq<u8>, cap: nat) -> Seq<u8> {
    if s.len() <= cap {
        s
    } else {
        s.take(cap as int)
    }
}

/// A byte sink the serializer writes into.
///
/// `stream` is the full sequence of bytes pushed so far; a bounded sink may
/// keep only a prefix of it, but the stream itself always grows by exactly
/// the pushed token.
pub trait SerializeInto {
    /// The bytes pushed so far, before any truncation the sink applies.
    spec fn stream(&self) -> Seq<u8>;

    /// The sink's internal invariant.
    spec fn inv(&self) -> bool;

    /// The fixed capacity the sink was built with, if it has one; a
    /// growable sink has none. Pushing never changes it.
    spec fn spec_capacity(&self) -> Option<nat>;

    /// Append a token to the stream.
    fn push(&mut self, token: &[u8])
        requires
            old(self).inv(),
        ensures
            final(self).inv(),
            final(self).stream() == old(self).stream() + token@,
            final(self).spec_capacity() == old(self).spec_capacity(),
    ;
}

/// The growable sink: a plain byte vector that keeps the whole stream.
impl SerializeInto for Vec<u8> {
    open spec fn stream(&self) -> Seq<u8> {
        self@
    }

    open spec fn inv(&self) -> bool {
        true
    }

    open spec fn spec_capacity(&self) -> Option<nat> {
        None
    }

    fn push(&mut self, token: &[u8]) {
        let ghost pre = self@;
        self.extend_from_slice(token);
        proof {
            assert forall|i: int| 0 <= i < self@.len() implies self@[i] == (pre + token@)[i] by {
                if i >= pre.len() {
                    assert(cloned::<u8>(token@[i - pre.len()], self@[i]));
                }
            }
            assert(self@ =~= pre + token@);
        }
    }
}

/// The fixed-capacity sink: keeps at most `capacity` bytes and silently
/// drops the rest; the number of bytes kept reports truncation.
pub struct SliceSerializer {
    data: Vec<u8>,
    capacity: usize,
    full: Ghost<Seq<u8>>,
}

impl SerializeInto for SliceSerializer {
    closed spec fn stream(&self) -> Seq<u8> {
        self.full@
    }

    closed spec fn inv(&self) -> bool {
        self.data@ == truncated(self.full@, self.capacity as nat)
    }

    closed spec fn spec_capacity(&self) -> Option<nat> {
        Some(self.capacity as nat)
    }

    fn push(&mut self, token: &[u8]) {
        let ghost pre = self.full@;
        let ghost cap = self.capacity as nat;
        let remaining = self.capacity - self.data.len();
        let num = if token.len() < remaining {
            token.len()
        } else {
            remaining
        };
        let mut k: usize = 0;
        while k < num
            invariant
                k <= num,
                num <= token@.len(),
                self.data@ == truncated(pre, cap) + token@.take(k as int),
                self.capacity == cap,
                self.full@ == pre,
            decreases num - k,
        {
            self.data.push(token[k]);
            proof {
                assert(token@.take(k + 1) =~= token@.take(k as int).push(token@[k as int]));
            }
            k = k + 1;
        }
        proof {
            self.full@ = pre + token@;
            let now = truncated(pre, cap) + token@.take(num as int);
            if pre.len() <= cap {
                if token@.len() <= cap - pre.len() {
                    assert(now =~= truncated(pre + token@, cap));
                } else {
                    assert(now =~= (pre + token@).take(cap as int));
                    assert(now =~= truncated(pre + token@, cap));
                }
            } else {
                assert(now =~= pre.take(cap as int));
                assert(now =~= truncated(pre + token@, cap));
            }
        }
    }
}

impl SliceSerializer {
    /// A fresh sink that accepts at most `capacity` bytes.
    pub fn new(capacity: usize) -> (s: SliceSerializer)
        ensures
            s.inv(),
            s.stream() == Seq::<u8>::empty(),
            s.spec_capacity() == Some(capacity as nat),
    {
        let s = SliceSerializer { data: Vec::new(), capacity, full: Ghost(Seq::empty()) };
        proof {
            assert(s.data@ =~= truncated(s.full@, s.capacity as nat));
        }
        s
    }

    /// How many bytes the sink kept: the whole stream if it fit, else the
    /// capacity.
    pub fn bytes_written(&self) -> (n: usize)
        requires
            self.inv(),
        ensures
            (match self.spec_capacity() {
                Some(c) => n as nat == truncated(self.stream(), c).len() && n <= c,
                None => false,
            }),
    {
        self.data.len()
    }

    /// The kept bytes: the stream, cut down to the capacity.
    pub fn into_bytes(self) -> (out: Vec<u8>)
        requires
            self.inv(),
        ensures
            (match self.spec_capacity() {
                Some(c) => out@ == truncated(self.stream(), c),
                None => false,
            }),
    {
        self.data
    }
}

/// What the fixed-capacity sink keeps is a prefix of the full stream and
/// never exceeds the capacity.
pub proof fn lemma_truncated_is_prefix(s: Seq<u8>, cap: nat)
    ensures
        truncated(s, cap).len() <= cap,
        truncated(s, cap).len() <= s.len(),
        truncated(s, cap) == s.take(truncated(s, cap).len() as int),
{
    assert(truncated(s, cap) =~= s.take(truncated(s, cap).len() as int));
}

/// The working copy of a parsed file that one fuzzing iteration mutates and
/// serializes.
pub struct FuzzFile {
    root: Vec<NodeRef>,
    nodes: Vec<Node>,
    ranges: Vec<Vec<NodeRef>>,
}

impl View for FuzzFile {
    type V = FileModel;

    closed spec fn view(&self) -> FileModel {
        FileModel {
            root: refs_model(self.root@),
            nodes: self.nodes@.map_values(|n: Node| n@),
            ranges: self.ranges@.map_values(|r: Vec<NodeRef>| refs_model(r@)),
        }
    }
}

/// One structural rewrite of the catalogue.
#[derive(Clone)]
pub enum Mutation {
    DuplicateRange,
    DuplicateRootNode,
    EmptyDelim,
    NestDelim,
    RandDelim,
    RemoveDelim,
    ShuffleRanges,
    SwapDelim,
    SwapRanges,
}

/// The full catalogue of mutations, each enabled once.
pub fn default_mutations() -> (out: Vec<Mutation>)
    ensures
        out@ == seq![
            Mutation::DuplicateRange,
            Mutation::DuplicateRootNode,
            Mutation::EmptyDelim,
            Mutation::NestDelim,
            Mutation::RandDelim,
            Mutation::RemoveDelim,
            Mutation::ShuffleRanges,
            Mutation::SwapDelim,
            Mutation::SwapRanges,
        ],
{
    let mut out: Vec<Mutation> = Vec::new();
    out.push(Mutation::DuplicateRange);
    out.push(Mutation::DuplicateRootNode);
    out.push(Mutation::EmptyDelim);
    out.push(Mutation::NestDelim);
    out.push(Mutation::RandDelim);
    out.push(Mutation::RemoveDelim);
    out.push(Mutation::ShuffleRanges);
    out.push(Mutation::SwapDelim);
    out.push(Mutation::SwapRanges);
    proof {
        assert(out@ =~= seq![
            Mutation::DuplicateRange,
            Mutation::DuplicateRootNode,
            Mutation::EmptyDelim,
            Mutation::NestDelim,
            Mutation::RandDelim,
            Mutation::RemoveDelim,
            Mutation::ShuffleRanges,
            Mutation::SwapDelim,
            Mutation::SwapRanges,
        ]);
    }
    out
}

/// What one fuzzing iteration runs under: the mutation budget, the bound on
/// range duplication, the enabled mutations, and the grammar's delimiter
/// pairs.
pub struct FuzzConfig {
    pub max_mutations: usize,
    pub max_duplications: usize,
    pub valid_actions: Vec<Mutation>,
    pub all_delims: Vec<Delim>,
}

/// Pick a delimiter node uniformly among the delimiter nodes of the arena,
/// returning its index, its patterns and its child range.
fn rand_delim(rng: &mut Prng, nodes: &Vec<Node>) -> (picked: Option<(NodeRef, Delim, RangeRef)>)
    ensures
        picked is Some <==> has_delim(nodes@.map_values(|n: Node| n@)),
        (picked matches Some((i, d, rr)) ==> (i as int) < nodes@.len() && nodes@[i as int]@
            == NodeModel::Delim(d@.0, rr as int, d@.1)),
{
    let ghost models = nodes@.map_values(|n: Node| n@);
    let mut delim_refs: Vec<NodeRef> = Vec::new();
    let mut i: usize = 0;
    while i < nodes.len()
        invariant
            i <= nodes.len(),
            models == nodes@.map_values(|n: Node| n@),
            models.len() == nodes@.len(),
            forall|q: int|
                0 <= q < delim_refs@.len() ==> (0 <= #[trigger] delim_refs@[q] < i && models[
                    delim_refs@[q] as int
                ].is_delim()),
            delim_refs@.len() == 0 ==> !has_delim(models.take(i as int)),
        decreases nodes.len() - i,
    {
        let is_delim_node = match &nodes[i] {
            Node::Delim(_, _, _) => true,
            _ => false,
        };
        if is_delim_node {
            delim_refs.push(i);
        }
        proof {
            if delim_refs@.len() == 0 {
                assert forall|q: int| 0 <= q < i + 1 implies !(#[trigger] models.take(i + 1)[q])
                    .is_delim() by {
                    if q < i {
                        assert(!models.take(i as int)[q].is_delim());
                    }
                }
            }
        }
        i = i + 1;
    }
    proof {
        assert(models.take(models.len() as int) =~= models);
    }
    if delim_refs.len() == 0 {
        return None;
    }
    let pick = rng.gen_range_usize(0, delim_refs.len());
    let idx = delim_refs[pick];
    match &nodes[idx] {
        Node::Delim(o, rr, c) => Some((idx, Delim::new(clone_bytes(o), clone_bytes(c)), *rr)),
        _ => {
            proof {
                assert(false);
            }
            None
        },
    }
}

fn clone_refs(v: &Vec<NodeRef>) -> (out: Vec<NodeRef>)
    ensures
        out@ == v@,
{
    let out = v.clone();
    proof {
        assert forall|i: int| 0 <= i < out@.len() implies out@[i] == v@[i] by {
            assert(cloned::<usize>(v@[i], out@[i]));
        }
        assert(out@ =~= v@);
    }
    out
}

fn clone_nodes(nodes: &Vec<Node>) -> (out: Vec<Node>)
    ensures
        out@.map_values(|n: Node| n@) == nodes@.map_values(|n: Node| n@),
{
    let mut out: Vec<Node> = Vec::new();
    let mut i: usize = 0;
    while i < nodes.len()
        invariant
            i <= nodes.len(),
            out@.len() == i,
            forall|j: int| 0 <= j < i ==> #[trigger] out@[j]@ == nodes@[j]@,
        decreases nodes.len() - i,
    {
        out.push(nodes[i].clone());
        i = i + 1;
    }
    proof {
        assert(out@.map_values(|n: Node| n@) =~= nodes@.map_values(|n: Node| n@));
    }
    out
}

fn clone_ranges(ranges: &Vec<Vec<NodeRef>>) -> (out: Vec<Vec<NodeRef>>)
    ensures
        out@.map_values(|r: Vec<NodeRef>| refs_model(r@)) == ranges@.map_values(
            |r: Vec<NodeRef>| refs_model(r@),
        ),
{
    let mut out: Vec<Vec<NodeRef>> = Vec::new();
    let mut i: usize = 0;
    while i < ranges.len()
        invariant
            i <= ranges.len(),
            out@.len() == i,
            forall|j: int| 0 <= j < i ==> #[trigger] out@[j]@ == ranges@[j]@,
        decreases ranges.len() - i,
    {
        out.push(ranges[i].clone());
        i = i + 1;
    }
    proof {
        assert forall|j: int| 0 <= j < ranges@.len() implies #[trigger] refs_model(out@[j]@)
            == refs_model(ranges@[j]@) by {}
        assert(out@.map_values(|r: Vec<NodeRef>| refs_model(r@)) =~= ranges@.map_values(
            |r: Vec<NodeRef>| refs_model(r@),
        ));
    }
    out
}

/// Marks which ranges are on the active expansion path during
/// serialization.
struct SerializeState {
    have_serialized_range: Vec<bool>,
}

impl SerializeState {
    spec fn seen(&self) -> Seq<bool> {
        self.have_serialized_range@
    }

    fn new(ranges: &Vec<Vec<NodeRef>>) -> (s: SerializeState)
        ensures
            s.seen() == all_unseen(ranges@.len()),
    {
        let n = ranges.len();
        let mut v: Vec<bool> = Vec::new();
        let mut i: usize = 0;
        while i < n
            invariant
                i <= n,
                v@.len() == i,
                forall|j: int| 0 <= j < i ==> !(#[trigger] v@[j]),
            decreases n - i,
        {
            v.push(false);
            i = i + 1;
        }
        proof {
            assert(v@ =~= all_unseen(ranges@.len()));
        }
        SerializeState { have_serialized_range: v }
    }

    /// True (and marks the range) iff the range is not already being
    /// expanded.
    fn should_serialize(&mut self, rangeref: RangeRef) -> (fresh: bool)
        requires
            rangeref < old(self).seen().len(),
        ensures
            fresh == !old(self).seen()[rangeref as int],
            fresh ==> final(self).seen() == old(self).seen().update(rangeref as int, true),
            !fresh ==> final(self).seen() == old(self).seen(),
    {
        if self.have_serialized_range[rangeref] {
            false
        } else {
            self.have_serialized_range[rangeref] = true;
            true
        }
    }

    fn reset(&mut self, rangeref: RangeRef)
        requires
            rangeref < old(self).seen().len(),
        ensures
            final(self).seen() == old(self).seen().update(rangeref as int, false),
    {
        self.have_serialized_range[rangeref] = false;
    }
}

impl FuzzFile {
    /// A fresh working copy of `parsed`.
    pub fn new(parsed: &ParsedFile) -> (ff: FuzzFile)
        ensures
            ff@ == parsed@,
    {
        let ff = FuzzFile {
            root: parsed.root.clone(),
            nodes: clone_nodes(&parsed.nodes),
            ranges: clone_ranges(&parsed.ranges),
        };
        proof {
            assert(ff@.root =~= parsed@.root);
        }
        ff
    }

    fn serialize_noderef<S: SerializeInto>(
        &self,
        noderef: NodeRef,
        state: &mut SerializeState,
        out: &mut S,
    )
        requires
            self@.wf(),
            old(out).inv(),
            old(state).seen().len() == self@.ranges.len(),
            (noderef as int) < self@.nodes.len(),
        ensures
            final(state).seen() == old(state).seen(),
            final(out).inv(),
            final(out).spec_capacity() == old(out).spec_capacity(),
            final(out).stream() == old(out).stream() + ser_node(
                self@,
                old(state).seen(),
                noderef as int,
            ),
        decreases count_false(state.seen()), 1nat,
    {
        match &self.nodes[noderef] {
            Node::Token(b) => {
                out.push(b.as_slice());
            },
            Node::Delim(o, r, c) => {
                out.push(o.as_slice());
                self.serialize_range(*r, state, out);
                out.push(c.as_slice());
            },
            Node::Range(r) => {
                self.serialize_range(*r, state, out);
            },
        }
    }

    #[verifier::loop_isolation(false)]
    fn serialize_range<S: SerializeInto>(
        &self,
        rangeref: RangeRef,
        state: &mut SerializeState,
        out: &mut S,
    )
        requires
            self@.wf(),
            old(out).inv(),
            old(state).seen().len() == self@.ranges.len(),
            (rangeref as int) < self@.ranges.len(),
        ensures
            final(state).seen() == old(state).seen(),
            final(out).inv(),
            final(out).spec_capacity() == old(out).spec_capacity(),
            final(out).stream() == old(out).stream() + ser_range(
                self@,
                old(state).seen(),
                rangeref as int,
            ),
        decreases count_false(state.seen()), 0nat,
    {
        let ghost m = self@;
        let ghost seen0 = state.seen();
        let ghost s0 = out.stream();
        let ghost cap0 = out.spec_capacity();
        if self.should_serialize_at(rangeref, state) {
            let ghost marked = seen0.update(rangeref as int, true);
            proof {
                lemma_count_false_update(seen0, rangeref as int);
            }
            let ghost members = m.ranges[rangeref as int];
            let mut k: usize = 0;
            let num = self.ranges[rangeref].len();
            proof {
                assert(members =~= refs_model(self.ranges@[rangeref as int]@));
            }
            while k < num
                invariant
                    self@ == m,
                    m.wf(),
                    k <= num,
                    (rangeref as int) < m.ranges.len(),
                    num == m.ranges[rangeref as int].len(),
                    members == m.ranges[rangeref as int],
                    marked == seen0.update(rangeref as int, true),
                    0 <= (rangeref as int) < seen0.len(),
                    seen0.len() == m.ranges.len(),
                    state.seen() == marked,
                    count_false(marked) + 1 == count_false(seen0),
                    out.inv(),
                    out.spec_capacity() == cap0,
                    out.stream() == s0 + ser_list(m, marked, members.take(k as int)),
                decreases num - k,
            {
                let child = self.child_at(rangeref, k);
                proof {
                    assert(valid_refs(m, m.ranges[rangeref as int]));
                    assert(0 <= members[k as int] < m.nodes.len());
                }
                self.serialize_noderef(child, state, out);
                proof {
                    assert(members.take(k + 1) =~= members.take(k as int).push(members[k as int]));
                    lemma_ser_list_snoc(m, marked, members.take(k as int), members[k as int]);
                }
                k = k + 1;
            }
            state.reset(rangeref);
            proof {
                assert(final(state).seen() =~= seen0);
                assert(members.take(num as int) =~= members);
            }
        } else {
            proof {
                assert(ser_range(m, seen0, rangeref as int) =~= Seq::<u8>::empty());
                assert(out.stream() =~= s0 + Seq::<u8>::empty());
            }
        }
    }

    /// Helper around [`SerializeState::should_serialize`] so the borrow of
    /// `self.ranges` stays local.
    fn should_serialize_at(&self, rangeref: RangeRef, state: &mut SerializeState) -> (fresh: bool)
        requires
            (rangeref as int) < old(state).seen().len(),
        ensures
            fresh == !old(state).seen()[rangeref as int],
            fresh ==> final(state).seen() == old(state).seen().update(rangeref as int, true),
            !fresh ==> final(state).seen() == old(state).seen(),
    {
        state.should_serialize(rangeref)
    }

    fn child_at(&self, rangeref: RangeRef, k: usize) -> (child: NodeRef)
        requires
            (rangeref as int) < self@.ranges.len(),
            (k as int) < self@.ranges[rangeref as int].len(),
        ensures
            child as int == self@.ranges[rangeref as int][k as int],
    {
        self.ranges[rangeref][k]
    }

    /// Flatten the file into `out`: the sink's stream grows by exactly the
    /// file's serialization.
    pub fn serialize<S: SerializeInto>(&self, out: &mut S)
        requires
            self@.wf(),
            old(out).inv(),
        ensures
            final(out).inv(),
            final(out).spec_capacity() == old(out).spec_capacity(),
            final(out).stream() == old(out).stream() + spec_serialize(self@),
    {
        let ghost m = self@;
        let ghost s0 = out.stream();
        let ghost cap0 = out.spec_capacity();
        let ghost unseen = all_unseen(m.ranges.len());
        let mut state = SerializeState::new(&self.ranges);
        let mut k: usize = 0;
        let num = self.root.len();
        proof {
            assert(m.root =~= refs_model(self.root@));
        }
        while k < num
            invariant
                self@ == m,
                m.wf(),
                k <= num,
                num == m.root.len(),
                unseen == all_unseen(m.ranges.len()),
                state.seen() == unseen,
                out.inv(),
                out.spec_capacity() == cap0,
                out.stream() == s0 + ser_list(m, unseen, m.root.take(k as int)),
            decreases num - k,
        {
            let child = self.root[k];
            proof {
                assert(valid_refs(m, m.root));
                assert(0 <= m.root[k as int] < m.nodes.len());
            }
            self.serialize_noderef(child, &mut state, out);
            proof {
                assert(m.root.take(k + 1) =~= m.root.take(k as int).push(m.root[k as int]));
                lemma_ser_list_snoc(m, unseen, m.root.take(k as int), m.root[k as int]);
            }
            k = k + 1;
        }
        proof {
            assert(m.root.take(num as int) =~= m.root);
        }
    }

    /// Swap two distinct entries of the range arena. Reports a change iff at
    /// least two ranges exist.
    pub fn swap_ranges(&mut self, rng: &mut Prng) -> (did: bool)
        ensures
            did <==> old(self)@.ranges.len() >= 2,
            !did ==> final(self)@ == old(self)@,
            !did ==> spec_serialize(final(self)@) == spec_serialize(old(self)@),
            did ==> (exists|i: int, j: int|
                {
                    &&& 0 <= i < old(self)@.ranges.len()
                    &&& 0 <= j < old(self)@.ranges.len()
                    &&& i != j
                    &&& final(self)@.ranges == old(self)@.ranges.update(
                        i,
                        old(self)@.ranges[j],
                    ).update(j, old(self)@.ranges[i])
                }),
            final(self)@.root == old(self)@.root,
            final(self)@.nodes == old(self)@.nodes,
            final(self)@.ranges.len() == old(self)@.ranges.len(),
            old(self)@.wf() ==> final(self)@.wf(),
            arenas_grow(old(self)@, final(self)@),
    {
        let n = self.ranges.len();
        if n < 2 {
            return false;
        }
        let ghost pre = self@;
        let (i, j) = rng.sample_two(n);
        let ri = clone_refs(&self.ranges[i]);
        let rj = clone_refs(&self.ranges[j]);
        self.ranges[i] = rj;
        self.ranges[j] = ri;
        proof {
            let post = self@;
            assert(post.ranges =~= pre.ranges.update(i as int, pre.ranges[j as int]).update(
                j as int,
                pre.ranges[i as int],
            ));
            assert(post.root =~= pre.root);
            assert(post.nodes =~= pre.nodes);
            if pre.wf() {
                assert forall|r: int| 0 <= r < post.ranges.len() implies valid_refs(
                    post,
                    #[trigger] post.ranges[r],
                ) by {
                    if r == j as int {
                        lemma_valid_refs_same_nodes(pre, post, pre.ranges[i as int]);
                    } else if r == i as int {
                        lemma_valid_refs_same_nodes(pre, post, pre.ranges[j as int]);
                    } else {
                        lemma_valid_refs_same_nodes(pre, post, pre.ranges[r]);
                    }
                }
                lemma_valid_refs_same_nodes(pre, post, pre.root);
                assert(post.wf());
            }
        }
        true
    }

    /// Permute the children of one range. Reports a change iff any range
    /// exists, even when the permutation drawn happens to be the identity.
    pub fn shuffle_range(&mut self, rng: &mut Prng) -> (did: bool)
        ensures
            did <==> old(self)@.ranges.len() >= 1,
            !did ==> final(self)@ == old(self)@,
            !did ==> spec_serialize(final(self)@) == spec_serialize(old(self)@),
            did ==> (exists|i: int|
                {
                    &&& 0 <= i < old(self)@.ranges.len()
                    &&& final(self)@.ranges[i].to_multiset() == old(self)@.ranges[i].to_multiset()
                    &&& final(self)@.ranges == old(self)@.ranges.update(i, final(self)@.ranges[i])
                }),
            final(self)@.root == old(self)@.root,
            final(self)@.nodes == old(self)@.nodes,
            final(self)@.ranges.len() == old(self)@.ranges.len(),
            old(self)@.wf() ==> final(self)@.wf(),
            arenas_grow(old(self)@, final(self)@),
    {
        let n = self.ranges.len();
        if n == 0 {
            return false;
        }
        let ghost pre = self@;
        let i = rng.gen_range_usize(0, n);
        let mut picked = clone_refs(&self.ranges[i]);
        let ghost before = picked@;
        rng.shuffle(&mut picked);
        proof {
            lemma_refs_model_multiset(picked@, before);
        }
        self.ranges[i] = picked;
        proof {
            broadcast use vstd::seq_lib::group_to_multiset_ensures;

            let post = self@;
            assert(post.ranges =~= pre.ranges.update(i as int, post.ranges[i as int]));
            assert(post.root =~= pre.root);
            assert(post.nodes =~= pre.nodes);
            assert(post.ranges[i as int].to_multiset() == pre.ranges[i as int].to_multiset());
            if pre.wf() {
                assert forall|r: int| 0 <= r < post.ranges.len() implies valid_refs(
                    post,
                    #[trigger] post.ranges[r],
                ) by {
                    if r == i as int {
                        assert forall|k: int|
                            0 <= k < post.ranges[r].len() implies 0 <= #[trigger] post.ranges[r][k]
                            < post.nodes.len() by {
                            let x = post.ranges[r][k];
                            assert(post.ranges[r].contains(x));
                            assert(post.ranges[r].to_multiset().count(x) > 0);
                            assert(pre.ranges[r].contains(x));
                            let idx = choose|idx: int|
                                0 <= idx < pre.ranges[r].len() && pre.ranges[r][idx] == x;
                            assert(valid_refs(pre, pre.ranges[r]));
                            assert(0 <= pre.ranges[r][idx] < pre.nodes.len());
                        }
                    } else {
                        lemma_valid_refs_same_nodes(pre, post, pre.ranges[r]);
                    }
                }
                lemma_valid_refs_same_nodes(pre, post, pre.root);
                assert(post.wf());
            }
        }
        true
    }

    /// Append `k` extra copies of one range's children to itself, for a `k`
    /// drawn from `[1, max_duplications)`. Reports a change iff
    /// `max_duplications >= 2` and a range exists.
    pub fn duplicate_range(&mut self, rng: &mut Prng, max_duplications: usize) -> (did: bool)
        ensures
            did <==> (max_duplications >= 2 && old(self)@.ranges.len() >= 1),
            !did ==> final(self)@ == old(self)@,
            !did ==> spec_serialize(final(self)@) == spec_serialize(old(self)@),
            did ==> (exists|i: int, copies: int|
                {
                    &&& 0 <= i < old(self)@.ranges.len()
                    &&& 2 <= copies <= max_duplications
                    &&& final(self)@.ranges == old(self)@.ranges.update(
                        i,
                        #[trigger] repeated(old(self)@.ranges[i], copies as nat),
                    )
                }),
            final(self)@.root == old(self)@.root,
            final(self)@.nodes == old(self)@.nodes,
            final(self)@.ranges.len() == old(self)@.ranges.len(),
            old(self)@.wf() ==> final(self)@.wf(),
            arenas_grow(old(self)@, final(self)@),
    {
        if max_duplications < 2 {
            return false;
        }
        let n = self.ranges.len();
        if n == 0 {
            return false;
        }
        let ghost pre = self@;
        let i = rng.gen_range_usize(0, n);
        let k = rng.gen_range_usize(1, max_duplications);
        let base = clone_refs(&self.ranges[i]);
        let ghost base_model = refs_model(base@);
        let mut acc: Vec<NodeRef> = Vec::new();
        let mut t: usize = 0;
        proof {
            assert(base_model == pre.ranges[i as int]);
            assert(refs_model(acc@) =~= repeated(base_model, 0));
        }
        while t < k + 1
            invariant
                k < max_duplications,
                t <= k + 1,
                base_model == refs_model(base@),
                refs_model(acc@) == repeated(base_model, t as nat),
                pre.wf() ==> valid_refs(pre, refs_model(acc@)),
                pre.wf() ==> valid_refs(pre, base_model),
            decreases k + 1 - t,
        {
            let ghost acc_pre = acc@;
            acc.extend_from_slice(base.as_slice());
            proof {
                assert forall|q: int| 0 <= q < acc@.len() implies acc@[q] == (acc_pre
                    + base@)[q] by {
                    if q >= acc_pre.len() {
                        assert(cloned::<usize>(base@[q - acc_pre.len()], acc@[q]));
                    }
                }
                assert(acc@ =~= acc_pre + base@);
                assert(refs_model(acc@) =~= refs_model(acc_pre) + refs_model(base@));
                lemma_repeated_snoc(base_model, t as nat);
            }
            t = t + 1;
        }
        self.ranges[i] = acc;
        proof {
            let post = self@;
            assert(post.ranges =~= pre.ranges.update(
                i as int,
                repeated(pre.ranges[i as int], (k + 1) as nat),
            ));
            assert(post.root =~= pre.root);
            assert(post.nodes =~= pre.nodes);
            if pre.wf() {
                assert forall|r: int| 0 <= r < post.ranges.len() implies valid_refs(
                    post,
                    #[trigger] post.ranges[r],
                ) by {
                    if r == i as int {
                        lemma_valid_refs_same_nodes(pre, post, post.ranges[r]);
                    } else {
                        lemma_valid_refs_same_nodes(pre, post, pre.ranges[r]);
                    }
                }
                lemma_valid_refs_same_nodes(pre, post, pre.root);
                assert(post.wf());
            }
        }
        true
    }

    /// Clone one node to the end of the node arena, append a fresh range
    /// holding the clone and a second node, and point the original slot at
    /// that range. Reports a change iff at least two nodes exist.
    pub fn duplicate_root_node(&mut self, rng: &mut Prng) -> (did: bool)
        ensures
            did <==> old(self)@.nodes.len() >= 2,
            !did ==> final(self)@ == old(self)@,
            !did ==> spec_serialize(final(self)@) == spec_serialize(old(self)@),
            did ==> (exists|src: int, dst: int|
                {
                    &&& 0 <= src < old(self)@.nodes.len()
                    &&& 0 <= dst < old(self)@.nodes.len()
                    &&& src != dst
                    &&& final(self)@.nodes == old(self)@.nodes.push(old(self)@.nodes[dst]).update(
                        dst,
                        NodeModel::Range(old(self)@.ranges.len() as int),
                    )
                    &&& final(self)@.ranges == old(self)@.ranges.push(
                        seq![old(self)@.nodes.len() as int, src],
                    )
                }),
            final(self)@.root == old(self)@.root,
            old(self)@.wf() ==> final(self)@.wf(),
            arenas_grow(old(self)@, final(self)@),
    {
        let n = self.nodes.len();
        if n < 2 {
            return false;
        }
        let ghost pre = self@;
        let (src, dst) = rng.sample_two(n);
        let dup = self.nodes[dst].clone();
        let noderef = self.nodes.len();
        self.nodes.push(dup);
        let rangeref = self.ranges.len();
        let mut fresh: Vec<NodeRef> = Vec::new();
        fresh.push(noderef);
        fresh.push(src);
        self.ranges.push(fresh);
        self.nodes[dst] = Node::Range(rangeref);
        proof {
            let post = self@;
            assert(post.nodes =~= pre.nodes.push(pre.nodes[dst as int]).update(
                dst as int,
                NodeModel::Range(pre.ranges.len() as int),
            ));
            assert(refs_model(fresh@) =~= seq![pre.nodes.len() as int, src as int]);
            assert(post.ranges =~= pre.ranges.push(seq![pre.nodes.len() as int, src as int]));
            assert(post.root =~= pre.root);
            if pre.wf() {
                assert forall|r: int| 0 <= r < post.ranges.len() implies valid_refs(
                    post,
                    #[trigger] post.ranges[r],
                ) by {
                    if r < pre.ranges.len() {
                        lemma_valid_refs_same_nodes(pre, post, pre.ranges[r]);
                    }
                }
                lemma_valid_refs_same_nodes(pre, post, pre.root);
                assert forall|q: int| 0 <= q < post.nodes.len() implies post.node_wf(
                    #[trigger] post.nodes[q],
                ) by {}
                assert(post.wf());
            }
        }
        true
    }

    /// Replace a delimiter node by a bare range node, dropping its open and
    /// close patterns but keeping its children. Reports a change iff a
    /// delimiter node exists.
    pub fn remove_delim(&mut self, rng: &mut Prng) -> (did: bool)
        ensures
            did <==> has_delim(old(self)@.nodes),
            !did ==> final(self)@ == old(self)@,
            !did ==> spec_serialize(final(self)@) == spec_serialize(old(self)@),
            did ==> (exists|i: int|
                {
                    &&& 0 <= i < old(self)@.nodes.len()
                    &&& (#[trigger] old(self)@.nodes[i]).is_delim()
                    &&& final(self)@.nodes == old(self)@.nodes.update(
                        i,
                        NodeModel::Range(old(self)@.nodes[i].delim_parts().1),
                    )
                }),
            final(self)@.root == old(self)@.root,
            final(self)@.ranges == old(self)@.ranges,
            old(self)@.wf() ==> final(self)@.wf(),
            arenas_grow(old(self)@, final(self)@),
    {
        let ghost pre = self@;
        match rand_delim(rng, &self.nodes) {
            None => false,
            Some((idx, _picked, rr)) => {
                self.nodes[idx] = Node::Range(rr);
                proof {
                    let post = self@;
                    assert(post.nodes =~= pre.nodes.update(
                        idx as int,
                        NodeModel::Range(rr as int),
                    ));
                    assert(post.root =~= pre.root);
                    assert(post.ranges =~= pre.ranges);
                    assert(pre.nodes[idx as int].is_delim());
                    assert(pre.nodes[idx as int].delim_parts().1 == rr as int);
                    assert(post.nodes == pre.nodes.update(
                        idx as int,
                        NodeModel::Range(pre.nodes[idx as int].delim_parts().1),
                    ));
                    if pre.wf() {
                        assert forall|q: int| 0 <= q < post.nodes.len() implies post.node_wf(
                            #[trigger] post.nodes[q],
                        ) by {
                            assert(pre.node_wf(pre.nodes[q]));
                        }
                        assert forall|r: int| 0 <= r < post.ranges.len() implies valid_refs(
                            post,
                            #[trigger] post.ranges[r],
                        ) by {
                            lemma_valid_refs_same_nodes(pre, post, pre.ranges[r]);
                        }
                        lemma_wf_from_parts(pre, post);
                    }
                }
                true
            },
        }
    }

    /// Transpose a delimiter node's open and close patterns. Reports a
    /// change iff a delimiter node exists.
    pub fn swap_delim(&mut self, rng: &mut Prng) -> (did: bool)
        ensures
            did <==> has_delim(old(self)@.nodes),
            !did ==> final(self)@ == old(self)@,
            !did ==> spec_serialize(final(self)@) == spec_serialize(old(self)@),
            did ==> (exists|i: int|
                {
                    &&& 0 <= i < old(self)@.nodes.len()
                    &&& (#[trigger] old(self)@.nodes[i]).is_delim()
                    &&& ({
                        let (o, rr, c) = old(self)@.nodes[i].delim_parts();
                        final(self)@.nodes == old(self)@.nodes.update(
                            i,
                            NodeModel::Delim(c, rr, o),
                        )
                    })
                }),
            final(self)@.root == old(self)@.root,
            final(self)@.ranges == old(self)@.ranges,
            old(self)@.wf() ==> final(self)@.wf(),
            arenas_grow(old(self)@, final(self)@),
    {
        let ghost pre = self@;
        match rand_delim(rng, &self.nodes) {
            None => false,
            Some((idx, picked, rr)) => {
                let Delim { start_pattern, end_pattern } = picked;
                self.nodes[idx] = Node::Delim(end_pattern, rr, start_pattern);
                proof {
                    let post = self@;
                    let (o, r0, c) = pre.nodes[idx as int].delim_parts();
                    assert(post.nodes =~= pre.nodes.update(idx as int, NodeModel::Delim(c, r0, o)));
                    assert(post.root =~= pre.root);
                    assert(post.ranges =~= pre.ranges);
                    if pre.wf() {
                        assert forall|q: int| 0 <= q < post.nodes.len() implies post.node_wf(
                            #[trigger] post.nodes[q],
                        ) by {
                            assert(pre.node_wf(pre.nodes[q]));
                        }
                        assert forall|r: int| 0 <= r < post.ranges.len() implies valid_refs(
                            post,
                            #[trigger] post.ranges[r],
                        ) by {
                            lemma_valid_refs_same_nodes(pre, post, pre.ranges[r]);
                        }
                        lemma_wf_from_parts(pre, post);
                    }
                }
                true
            },
        }
    }

    /// Wrap a delimiter node's children in a second copy of the same
    /// delimiter: the copy keeps the old child range, and the original slot
    /// points at a fresh range holding only the copy. Reports a change iff a
    /// delimiter node exists.
    pub fn nest_delim(&mut self, rng: &mut Prng) -> (did: bool)
        ensures
            did <==> has_delim(old(self)@.nodes),
            !did ==> final(self)@ == old(self)@,
            !did ==> spec_serialize(final(self)@) == spec_serialize(old(self)@),
            did ==> (exists|i: int|
                {
                    &&& 0 <= i < old(self)@.nodes.len()
                    &&& (#[trigger] old(self)@.nodes[i]).is_delim()
                    &&& ({
                        let (o, rr, c) = old(self)@.nodes[i].delim_parts();
                        &&& final(self)@.nodes == old(self)@.nodes.push(
                            NodeModel::Delim(o, rr, c),
                        ).update(i, NodeModel::Delim(o, old(self)@.ranges.len() as int, c))
                        &&& final(self)@.ranges == old(self)@.ranges.push(
                            seq![old(self)@.nodes.len() as int],
                        )
                    })
                }),
            final(self)@.root == old(self)@.root,
            old(self)@.wf() ==> final(self)@.wf(),
            arenas_grow(old(self)@, final(self)@),
    {
        let ghost pre = self@;
        match rand_delim(rng, &self.nodes) {
            None => false,
            Some((idx, picked, rr)) => {
                let Delim { start_pattern, end_pattern } = picked;
                let nested_ref = self.nodes.len();
                self.nodes.push(
                    Node::Delim(clone_bytes(&start_pattern), rr, clone_bytes(&end_pattern)),
                );
                let nested_range = self.ranges.len();
                let mut fresh: Vec<NodeRef> = Vec::new();
                fresh.push(nested_ref);
                self.ranges.push(fresh);
                self.nodes[idx] = Node::Delim(start_pattern, nested_range, end_pattern);
                proof {
                    let post = self@;
                    let (o, r0, c) = pre.nodes[idx as int].delim_parts();
                    assert(post.nodes =~= pre.nodes.push(NodeModel::Delim(o, r0, c)).update(
                        idx as int,
                        NodeModel::Delim(o, pre.ranges.len() as int, c),
                    ));
                    assert(refs_model(fresh@) =~= seq![pre.nodes.len() as int]);
                    assert(post.ranges =~= pre.ranges.push(seq![pre.nodes.len() as int]));
                    assert(post.root =~= pre.root);
                    if pre.wf() {
                        assert forall|q: int| 0 <= q < post.nodes.len() implies post.node_wf(
                            #[trigger] post.nodes[q],
                        ) by {
                            if q < pre.nodes.len() && q != idx as int {
                                assert(pre.node_wf(pre.nodes[q]));
                            } else {
                                assert(pre.node_wf(pre.nodes[idx as int]));
                            }
                        }
                        assert forall|r: int| 0 <= r < post.ranges.len() implies valid_refs(
                            post,
                            #[trigger] post.ranges[r],
                        ) by {
                            if r < pre.ranges.len() {
                                lemma_valid_refs_same_nodes(pre, post, pre.ranges[r]);
                            }
                        }
                        lemma_wf_from_parts(pre, post);
                    }
                }
                true
            },
        }
    }

    /// Point a delimiter node at a fresh empty range, cutting its children
    /// loose from this slot. Reports a change iff a delimiter node exists.
    pub fn empty_delim(&mut self, rng: &mut Prng) -> (did: bool)
        ensures
            did <==> has_delim(old(self)@.nodes),
            !did ==> final(self)@ == old(self)@,
            !did ==> spec_serialize(final(self)@) == spec_serialize(old(self)@),
            did ==> (exists|i: int|
                {
                    &&& 0 <= i < old(self)@.nodes.len()
                    &&& (#[trigger] old(self)@.nodes[i]).is_delim()
                    &&& ({
                        let (o, rr, c) = old(self)@.nodes[i].delim_parts();
                        &&& final(self)@.nodes == old(self)@.nodes.update(
                            i,
                            NodeModel::Delim(o, old(self)@.ranges.len() as int, c),
                        )
                        &&& final(self)@.ranges == old(self)@.ranges.push(Seq::<int>::empty())
                    })
                }),
            final(self)@.root == old(self)@.root,
            old(self)@.wf() ==> final(self)@.wf(),
            arenas_grow(old(self)@, final(self)@),
    {
        let ghost pre = self@;
        match rand_delim(rng, &self.nodes) {
            None => false,
            Some((idx, picked, _rr)) => {
                let Delim { start_pattern, end_pattern } = picked;
                let fresh_range = self.ranges.len();
                let fresh: Vec<NodeRef> = Vec::new();
                self.ranges.push(fresh);
                self.nodes[idx] = Node::Delim(start_pattern, fresh_range, end_pattern);
                proof {
                    let post = self@;
                    let (o, r0, c) = pre.nodes[idx as int].delim_parts();
                    assert(post.nodes =~= pre.nodes.update(
                        idx as int,
                        NodeModel::Delim(o, pre.ranges.len() as int, c),
                    ));
                    assert(refs_model(fresh@) =~= Seq::<int>::empty());
                    assert(post.ranges =~= pre.ranges.push(Seq::<int>::empty()));
                    assert(post.root =~= pre.root);
                    if pre.wf() {
                        assert forall|q: int| 0 <= q < post.nodes.len() implies post.node_wf(
                            #[trigger] post.nodes[q],
                        ) by {
                            assert(pre.node_wf(pre.nodes[q]));
                        }
                        assert forall|r: int| 0 <= r < post.ranges.len() implies valid_refs(
                            post,
                            #[trigger] post.ranges[r],
                        ) by {
                            if r < pre.ranges.len() {
                                lemma_valid_refs_same_nodes(pre, post, pre.ranges[r]);
                            }
                        }
                        lemma_wf_from_parts(pre, post);
                    }
                }
                true
            },
        }
    }

    /// Replace a delimiter node's patterns by a pair drawn from the
    /// grammar's delimiter list; drawing the pair already in place reports
    /// no change.
    pub fn rand_delim(&mut self, rng: &mut Prng, delims: &Vec<Delim>) -> (did: bool)
        ensures
            !has_delim(old(self)@.nodes) ==> !did,
            delims@.len() == 0 ==> !did,
            (delims@.len() > 0 && has_delim(old(self)@.nodes) && (forall|i: int, j: int|
                0 <= i < old(self)@.nodes.len() && (#[trigger] old(self)@.nodes[i]).is_delim() && 0
                    <= j < delims@.len() ==> (#[trigger] delims@[j])@ != (
                old(self)@.nodes[i].delim_parts().0,
                old(self)@.nodes[i].delim_parts().2,
            ))) ==> did,
            !did ==> final(self)@ == old(self)@,
            !did ==> spec_serialize(final(self)@) == spec_serialize(old(self)@),
            did ==> (exists|i: int, j: int|
                {
                    &&& 0 <= i < old(self)@.nodes.len()
                    &&& (#[trigger] old(self)@.nodes[i]).is_delim()
                    &&& 0 <= j < delims@.len()
                    &&& ({
                        let (o, rr, c) = old(self)@.nodes[i].delim_parts();
                        &&& (#[trigger] delims@[j])@ != (o, c)
                        &&& final(self)@.nodes == old(self)@.nodes.update(
                            i,
                            NodeModel::Delim(delims@[j]@.0, rr, delims@[j]@.1),
                        )
                    })
                }),
            final(self)@.root == old(self)@.root,
            final(self)@.ranges == old(self)@.ranges,
            old(self)@.wf() ==> final(self)@.wf(),
            arenas_grow(old(self)@, final(self)@),
    {
        if delims.len() == 0 {
            return false;
        }
        let ghost pre = self@;
        match rand_delim(rng, &self.nodes) {
            None => false,
            Some((idx, picked, rr)) => {
                let j = rng.gen_range_usize(0, delims.len());
                let same = bytes_eq(&delims[j].start_pattern, &picked.start_pattern) && bytes_eq(
                    &delims[j].end_pattern,
                    &picked.end_pattern,
                );
                if same {
                    proof {
                        // The drawn pair equals the pair on the picked node,
                        // so the all-pairs-differ premise cannot hold.
                        assert(pre.nodes[idx as int].is_delim());
                        assert(pre.nodes[idx as int].delim_parts().0 == picked@.0);
                        assert(pre.nodes[idx as int].delim_parts().2 == picked@.1);
                        assert(delims@[j as int]@ == (picked@.0, picked@.1));
                    }
                    return false;
                }
                let new_open = clone_bytes(&delims[j].start_pattern);
                let new_close = clone_bytes(&delims[j].end_pattern);
                self.nodes[idx] = Node::Delim(new_open, rr, new_close);
                proof {
                    let post = self@;
                    assert(post.nodes =~= pre.nodes.update(
                        idx as int,
                        NodeModel::Delim(delims@[j as int]@.0, rr as int, delims@[j as int]@.1),
                    ));
                    assert(post.root =~= pre.root);
                    assert(post.ranges =~= pre.ranges);
                    assert(pre.nodes[idx as int].delim_parts().1 == rr as int);
                    if pre.wf() {
                        assert forall|q: int| 0 <= q < post.nodes.len() implies post.node_wf(
                            #[trigger] post.nodes[q],
                        ) by {
                            assert(pre.node_wf(pre.nodes[q]));
                        }
                        assert forall|r: int| 0 <= r < post.ranges.len() implies valid_refs(
                            post,
                            #[trigger] post.ranges[r],
                        ) by {
                            lemma_valid_refs_same_nodes(pre, post, pre.ranges[r]);
                        }
                        lemma_wf_from_parts(pre, post);
                    }
                }
                true
            },
        }
    }
}

/// The mutation is sure to report a change on a file of this shape: its
/// precondition holds and does not depend on which index the generator
/// draws. Replacing a delimiter pair by a drawn one is not counted as sure
/// here, since the draw may hit the pair already in place; the
/// draw-independent case (no enabled pair already in place) is stated on
/// [`FuzzFile::rand_delim`] itself.
pub open spec fn mutation_guaranteed(m: Mutation, file: FileModel, max_duplications: int) -> bool {
    match m {
        Mutation::SwapRanges => file.ranges.len() >= 2,
        Mutation::ShuffleRanges => file.ranges.len() >= 1,
        Mutation::DuplicateRange => max_duplications >= 2 && file.ranges.len() >= 1,
        Mutation::DuplicateRootNode => file.nodes.len() >= 2,
        Mutation::EmptyDelim => has_delim(file.nodes),
        Mutation::NestDelim => has_delim(file.nodes),
        Mutation::RemoveDelim => has_delim(file.nodes),
        Mutation::SwapDelim => has_delim(file.nodes),
        Mutation::RandDelim => false,
    }
}

/// Run one fuzzing iteration: copy the parsed file, apply up to
/// `max_mutations` mutations drawn from the enabled catalogue, and hand the
/// mutated copy back; a batch in which no mutation reported a change yields
/// nothing. A variant is owed whenever there is a mutation budget and every
/// enabled mutation is sure to apply to the parsed file.
pub fn fuzz_one(parsed: &ParsedFile, rng: &mut Prng, config: &FuzzConfig) -> (out: Option<
    FuzzFile,
>)
    requires
        parsed@.wf(),
    ensures
        (out matches Some(ff) ==> ff@.wf() && arenas_grow(parsed@, ff@)),
        config.max_mutations == 0 || config.valid_actions@.len() == 0 ==> out is None,
        out is Some ==> config.max_mutations > 0 && config.valid_actions@.len() > 0,
        (config.max_mutations > 0 && config.valid_actions@.len() > 0 && (forall|a: int|
            0 <= a < config.valid_actions@.len() ==> mutation_guaranteed(
                config.valid_actions@[a],
                parsed@,
                config.max_duplications as int,
            ))) ==> out is Some,
{
    let mut ff = FuzzFile::new(parsed);
    let mut did_mutate = false;
    let mut iter: usize = 0;
    let ghost all_sure = forall|a: int|
        0 <= a < config.valid_actions@.len() ==> mutation_guaranteed(
            config.valid_actions@[a],
            parsed@,
            config.max_duplications as int,
        );
    while iter < config.max_mutations
        invariant
            iter <= config.max_mutations,
            ff@.wf(),
            arenas_grow(parsed@, ff@),
            config.valid_actions@.len() == 0 ==> !did_mutate,
            iter == 0 ==> !did_mutate,
            iter == 0 ==> ff@ == parsed@,
            all_sure == (forall|a: int|
                0 <= a < config.valid_actions@.len() ==> mutation_guaranteed(
                    config.valid_actions@[a],
                    parsed@,
                    config.max_duplications as int,
                )),
            (iter > 0 && config.valid_actions@.len() > 0 && all_sure) ==> did_mutate,
        decreases config.max_mutations - iter,
    {
        if config.valid_actions.len() > 0 {
            let pick = rng.gen_range_usize(0, config.valid_actions.len());
            let ghost before = ff@;
            let step = match &config.valid_actions[pick] {
                Mutation::DuplicateRange => ff.duplicate_range(rng, config.max_duplications),
                Mutation::DuplicateRootNode => ff.duplicate_root_node(rng),
                Mutation::EmptyDelim => ff.empty_delim(rng),
                Mutation::NestDelim => ff.nest_delim(rng),
                Mutation::RandDelim => ff.rand_delim(rng, &config.all_delims),
                Mutation::RemoveDelim => ff.remove_delim(rng),
                Mutation::ShuffleRanges => ff.shuffle_range(rng),
                Mutation::SwapDelim => ff.swap_delim(rng),
                Mutation::SwapRanges => ff.swap_ranges(rng),
            };
            proof {
                if iter == 0 && all_sure {
                    assert(mutation_guaranteed(
                        config.valid_actions@[pick as int],
                        parsed@,
                        config.max_duplications as int,
                    ));
                    assert(before == parsed@);
                    assert(step);
                }
            }
            did_mutate = did_mutate || step;
        }
        iter = iter + 1;
    }
    if did_mutate {
        Some(ff)
    } else {
        None
    }
}

} // verus!
