//! The dataflow graph: transforms keyed by stable indices, edges,
//! declared output sinks, and per-port result caches.
//!
//! A graph has two kinds of nodes.  A transformation node wraps a
//! [`Transformation`] and computes output data from input data; an
//! output node is a leaf observing one producer port.  Transformation
//! nodes are identified by [`TransformIdx`], output nodes by
//! [`OutputId`]; both are minted monotonically and never reused within
//! a graph, even after deletion.

use vstd::prelude::*;

use crate::graph;
use crate::transform::TransData;
use crate::transform::Transformation;
use crate::value::IOErr;
use crate::value::IOType;
use crate::value::IOValue;
use crate::value::ValueData;
use crate::value::duplicate_option_value;

verus! {

/// Identify a transformation node.
#[derive(Debug, Copy, Clone, PartialEq, Eq, Hash, Structural)]
pub struct TransformIdx(pub usize);

/// Identify an output node.
#[derive(Debug, Copy, Clone, PartialEq, Eq, Hash, Structural)]
pub struct OutputId(pub usize);

impl TransformIdx {
    /// The successor index, minted after this one.
    pub(crate) fn incr(self) -> (r: Self)
        requires
            self.0 < usize::MAX,
        ensures
            r.0 == self.0 + 1,
    {
        TransformIdx(self.0 + 1)
    }

    /// The raw numeric id.
    pub fn id(&self) -> (r: usize)
        ensures
            r == self.0,
    {
        self.0
    }
}

impl OutputId {
    /// The successor id, minted after this one.
    pub(crate) fn incr(self) -> (r: Self)
        requires
            self.0 < usize::MAX,
        ensures
            r.0 == self.0 + 1,
    {
        OutputId(self.0 + 1)
    }

    /// The raw numeric id.
    pub fn id(&self) -> (r: usize)
        ensures
            r == self.0,
    {
        self.0
    }
}

/// Uniquely identify an output port of a transformation node.
#[derive(Debug, Copy, Clone, PartialEq, Eq, Hash, Structural)]
pub struct Output {
    pub t_idx: TransformIdx,
    pub output_i: usize,
}

/// Uniquely identify an input port of a transformation node.
#[derive(Debug, Copy, Clone, PartialEq, Eq, Hash, Structural)]
pub struct Input {
    pub t_idx: TransformIdx,
    pub input_i: usize,
}

impl Output {
    /// A port pointing to the `out_i`-th output of the transform,
    /// counting from 0.
    pub fn new(t_idx: TransformIdx, out_i: usize) -> (r: Self)
        ensures
            r.t_idx == t_idx,
            r.output_i == out_i,
    {
        Self { t_idx, output_i: out_i }
    }

    /// The index of the output, starting from 0.
    pub fn index(&self) -> (r: usize)
        ensures
            r == self.output_i,
    {
        self.output_i
    }
}

impl Input {
    /// A port pointing to the `in_i`-th input of the transform,
    /// counting from 0.
    pub fn new(t_idx: TransformIdx, in_i: usize) -> (r: Self)
        ensures
            r.t_idx == t_idx,
            r.input_i == in_i,
    {
        Self { t_idx, input_i: in_i }
    }

    /// The index of the input, starting from 0.
    pub fn index(&self) -> (r: usize)
        ensures
            r == self.input_i,
    {
        self.input_i
    }
}

/// The input ports one producer output feeds.
#[derive(Debug, Clone)]
pub struct InputList {
    inputs: Vec<Input>,
}

impl View for InputList {
    type V = Seq<Input>;

    closed spec fn view(&self) -> Seq<Input> {
        self.inputs@
    }
}

impl InputList {
    /// A list holding the given inputs, in order.
    pub fn new(inputs: Vec<Input>) -> (r: Self)
        ensures
            r@ == inputs@,
    {
        Self { inputs }
    }

    /// Append one input.
    pub fn push(&mut self, input: Input)
        ensures
            final(self)@ == old(self)@.push(input),
    {
        self.inputs.push(input);
    }

    /// Whether the list holds the given input.
    pub fn contains(&self, input: &Input) -> (r: bool)
        ensures
            r == self@.contains(*input),
    {
        let mut i: usize = 0;
        while i < self.inputs.len()
            invariant
                i <= self.inputs.len(),
                forall|k: int| 0 <= k < i ==> self.inputs@[k] != *input,
            decreases self.inputs.len() - i,
        {
            if self.inputs[i] == *input {
                return true;
            }
            i += 1;
        }
        false
    }
}

/// Errors when building or computing a graph.
#[derive(Debug, Clone, PartialEq)]
pub enum DSTError {
    /// The named input port does not exist.
    InvalidInput(String),
    /// The named output port does not exist.
    InvalidOutput(String),
    /// The input is already driven by a producer.
    DuplicateEdge(String),
    /// The edge would close a cycle.
    Cycle(String),
    /// Producer and consumer type tags differ.
    IncompatibleTypes(String),
    /// The output node is unknown or unattached.
    MissingOutputID(String),
    /// A structural defect detected at evaluation time.
    ComputeError(String),
    /// An algorithm reported a failure.
    InnerComputeError(IOErr),
    /// Internal sentinel; never surfaced.
    NothingDoneYet,
}

/// The errors evaluation can produce: a structural defect found at
/// run time, a host value of the wrong type, or an algorithm's own
/// reported failure.  Evaluation never yields a build or lookup
/// error.
pub open spec fn is_evaluation_error(e: DSTError) -> bool {
    e is ComputeError || e is IncompatibleTypes || e is InnerComputeError
}

/// An input slot: the input port of a transform, or an output node.
#[derive(Debug, Copy, Clone, PartialEq, Eq, Structural)]
pub enum InputSlot {
    Transform(Input),
    Output(OutputId),
}

/// A transformation node: the descriptor, per-instance default input
/// overrides, and the per-output-port result cache.
#[derive(Debug, Clone)]
pub struct MetaTransform {
    pub(crate) t: Transformation,
    pub(crate) input_defaults: Vec<Option<IOValue>>,
    pub(crate) cache: Vec<Option<IOValue>>,
}

/// The mathematical model of a [`MetaTransform`].
pub struct MetaData {
    pub t: TransData,
    pub input_defaults: Seq<Option<ValueData>>,
    pub cache: Seq<Option<ValueData>>,
}

impl MetaData {
    /// Well-formedness: a valid descriptor, one default slot per
    /// declared input with matching tags, one cache slot per output.
    pub open spec fn wf(self) -> bool {
        &&& self.t.valid()
        &&& self.input_defaults.len() == self.t.input.len()
        &&& forall|i: int|
            0 <= i < self.input_defaults.len() ==> (#[trigger] self.input_defaults[i] matches Some(
                d,
            ) ==> d.tag() == self.t.input[i].0)
        &&& self.cache.len() == self.t.output.len()
    }

    /// The same node with every cache slot empty.
    pub open spec fn cleared(self) -> MetaData {
        MetaData {
            t: self.t,
            input_defaults: self.input_defaults,
            cache: Seq::new(self.cache.len(), |i: int| None),
        }
    }
}

impl MetaTransform {
    /// The mathematical model of the node.
    pub open(crate) spec fn data(self) -> MetaData {
        MetaData {
            t: self.t@,
            input_defaults: self.input_defaults.deep_view(),
            cache: self.cache.deep_view(),
        }
    }
}

impl MetaTransform {
    /// Wrap a descriptor: per-instance defaults are copied from the
    /// declared defaults, and every cache slot starts empty.
    pub fn new(t: Transformation) -> (r: Self)
        ensures
            r.data().t == t@,
            r.data().input_defaults.len() == t@.input.len(),
            forall|i: int|
                0 <= i < t@.input.len() ==> r.data().input_defaults[i] == t@.input[i].1,
            r.data().cache.len() == t@.output.len(),
            forall|i: int| 0 <= i < t@.output.len() ==> r.data().cache[i] is None,
    {
        let mut input_defaults: Vec<Option<IOValue>> = Vec::new();
        let mut i: usize = 0;
        while i < t.input.len()
            invariant
                i <= t.input.len(),
                input_defaults@.len() == i,
                forall|k: int|
                    0 <= k < i ==> (#[trigger] input_defaults@[k]).deep_view()
                        == t.input@[k].1.deep_view(),
            decreases t.input.len() - i,
        {
            input_defaults.push(duplicate_option_value(&t.input[i].1));
            i += 1;
        }
        proof {
            assert forall|k: int| 0 <= k < t.input@.len() implies input_defaults.deep_view()[k]
                == t.input.deep_view()[k].1 by {}
        }
        let mut cache: Vec<Option<IOValue>> = Vec::new();
        let mut j: usize = 0;
        while j < t.output.len()
            invariant
                j <= t.output.len(),
                cache@.len() == j,
                forall|k: int| 0 <= k < j ==> cache@[k] is None,
            decreases t.output.len() - j,
        {
            cache.push(None);
            j += 1;
        }
        Self { t, input_defaults, cache }
    }

    /// The wrapped descriptor.
    pub fn transform(&self) -> (r: &Transformation)
        ensures
            r@ == self.data().t,
    {
        &self.t
    }

    /// Split the node into its descriptor and its default overrides.
    pub fn tokenize(self) -> (r: (Transformation, Vec<Option<IOValue>>))
        ensures
            r.0@ == self.data().t,
            r.1.deep_view() == self.data().input_defaults,
    {
        (self.t, self.input_defaults)
    }
}

/// The dataflow graph.
pub struct DST {
    pub(crate) transforms: Vec<(TransformIdx, MetaTransform)>,
    pub(crate) edges: Vec<(Output, Input)>,
    pub(crate) outputs: Vec<(OutputId, Option<Output>)>,
    pub(crate) next_t_idx: usize,
    pub(crate) next_output_id: usize,
}

/// The dependency relation induced by an edge list: the set of
/// (producer node, consumer node) pairs its edges join.
pub open(crate) spec fn edges_dep_rel(es: Seq<(Output, Input)>) -> Set<(int, int)> {
    Set::new(
        |pr: (int, int)|
            exists|k: int|
                0 <= k < es.len() && (#[trigger] es[k]).0.t_idx.0 == pr.0 && es[k].1.t_idx.0
                    == pr.1,
    )
}

/// Strict ordering of edges: lexicographic on producer node, producer
/// port, consumer node, consumer port.
pub open spec fn edge_lt(a: (Output, Input), b: (Output, Input)) -> bool {
    if a.0.t_idx.0 != b.0.t_idx.0 {
        a.0.t_idx.0 < b.0.t_idx.0
    } else if a.0.output_i != b.0.output_i {
        a.0.output_i < b.0.output_i
    } else if a.1.t_idx.0 != b.1.t_idx.0 {
        a.1.t_idx.0 < b.1.t_idx.0
    } else {
        a.1.input_i < b.1.input_i
    }
}

impl DST {
    /// The transform table: (id, node) pairs, ascending by id.
    pub open(crate) spec fn t_seq(self) -> Seq<(TransformIdx, MetaTransform)> {
        self.transforms@
    }

    /// The edge list: (producer port, consumer port) pairs, ascending.
    pub open(crate) spec fn e_seq(self) -> Seq<(Output, Input)> {
        self.edges@
    }

    /// The sink table: (id, attached port) pairs, ascending by id.
    pub open(crate) spec fn o_seq(self) -> Seq<(OutputId, Option<Output>)> {
        self.outputs@
    }

    /// The next transform id to be minted.
    pub open(crate) spec fn next_t(self) -> int {
        self.next_t_idx as int
    }

    /// The next output id to be minted.
    pub open(crate) spec fn next_o(self) -> int {
        self.next_output_id as int
    }

    /// Whether a transformation node with numeric id `t` is present.
    pub open(crate) spec fn has_t(self, t: int) -> bool {
        exists|i: int| 0 <= i < self.transforms@.len() && self.transforms@[i].0.0 == t
    }

    /// The position of node `t` in the transform table.
    pub open(crate) spec fn t_index(self, t: int) -> int {
        choose|i: int| 0 <= i < self.transforms@.len() && self.transforms@[i].0.0 == t
    }

    /// The model of node `t`.
    pub open(crate) spec fn meta_data(self, t: int) -> MetaData {
        self.transforms@[self.t_index(t)].1.data()
    }

    /// Whether the output port exists in the graph.
    pub open(crate) spec fn valid_output(self, o: Output) -> bool {
        self.has_t(o.t_idx.0 as int) && (o.output_i as int) < self.meta_data(
            o.t_idx.0 as int,
        ).t.output.len()
    }

    /// Whether the input port exists in the graph.
    pub open(crate) spec fn valid_input(self, i: Input) -> bool {
        self.has_t(i.t_idx.0 as int) && (i.input_i as int) < self.meta_data(
            i.t_idx.0 as int,
        ).t.input.len()
    }

    /// The declared tag of an output port.
    pub open(crate) spec fn output_type_of(self, o: Output) -> IOType {
        self.meta_data(o.t_idx.0 as int).t.output[o.output_i as int]
    }

    /// The declared tag of an input port.
    pub open(crate) spec fn input_type_of(self, i: Input) -> IOType {
        self.meta_data(i.t_idx.0 as int).t.input[i.input_i as int].0
    }

    /// Whether the input port is driven by some producer.
    pub open(crate) spec fn input_driven(self, i: Input) -> bool {
        exists|k: int| 0 <= k < self.edges@.len() && (#[trigger] self.edges@[k]).1 == i
    }

    /// Direct dependency: some edge runs from node `p` to node `c`.
    pub open(crate) spec fn dep(self, p: int, c: int) -> bool {
        exists|k: int|
            0 <= k < self.edges@.len() && (#[trigger] self.edges@[k]).0.t_idx.0 == p
                && self.edges@[k].1.t_idx.0 == c
    }

    /// The dependency relation as a set of (producer, consumer) pairs.
    pub open(crate) spec fn dep_rel(self) -> Set<(int, int)> {
        Set::new(|pr: (int, int)| self.dep(pr.0, pr.1))
    }

    /// The graph's dependency relation is the one its edge list
    /// induces.
    pub(crate) proof fn lemma_dep_rel_is_edges(self)
        ensures
            self.dep_rel() == edges_dep_rel(self.e_seq()),
    {
        assert(self.dep_rel() =~= edges_dep_rel(self.e_seq()));
    }

    /// The numeric ids of the present transformation nodes, ascending.
    pub open(crate) spec fn tkey_seq(self) -> Seq<int> {
        self.transforms@.map_values(|p: (TransformIdx, MetaTransform)| p.0.0 as int)
    }

    /// The present node ids as a set.
    pub open(crate) spec fn tkey_set(self) -> Set<int> {
        self.tkey_seq().to_set()
    }

    /// Whether an output node with numeric id `id` is present.
    pub open(crate) spec fn has_oid(self, id: int) -> bool {
        exists|i: int| 0 <= i < self.outputs@.len() && self.outputs@[i].0.0 == id
    }

    /// The position of output node `id` in the sink table.
    pub open(crate) spec fn oid_index(self, id: int) -> int {
        choose|i: int| 0 <= i < self.outputs@.len() && self.outputs@[i].0.0 == id
    }

    /// The producer port an output node observes, if attached.
    pub open(crate) spec fn sink(self, id: int) -> Option<Output> {
        self.outputs@[self.oid_index(id)].1
    }

    /// The number of ancestors of node `t`: the present nodes from
    /// which `t` is reachable.
    pub open(crate) spec fn anc_card(self, t: int) -> nat {
        graph::ancestors(self.dep_rel(), self.tkey_set(), t).len()
    }

    /// Every cache entry either keeps the value it had in `other` or
    /// goes from empty to holding one; no slot is overwritten or
    /// emptied.
    pub open(crate) spec fn cache_monotone(self, other: DST) -> bool {
        forall|o: Output|
            other.valid_output(o) ==> self.cache_at(o) == other.cache_at(o) || (other.cache_at(
                o,
            ) is None && self.cache_at(o) is Some)
    }

    /// Every cache entry that held a value in `other` holds the same
    /// value in `self`.
    pub open(crate) spec fn cache_extends(self, other: DST) -> bool {
        forall|o: Output|
            other.valid_output(o) && other.cache_at(o) is Some ==> self.cache_at(o)
                == other.cache_at(o)
    }

    /// The cached value at an output port, if any.
    pub open(crate) spec fn cache_at(self, o: Output) -> Option<ValueData> {
        self.meta_data(o.t_idx.0 as int).cache[o.output_i as int]
    }

    /// Well-formedness of the graph.  This holds after every builder
    /// operation: tables sorted by id and ids below the mint counters,
    /// nodes well formed, every edge between existing ports of equal
    /// tags, each input driven at most once, sinks attached to existing
    /// ports, and the dependency relation acyclic.
    pub open(crate) spec fn wf(self) -> bool {
        &&& forall|i: int, j: int|
            0 <= i < j < self.transforms@.len() ==> (#[trigger] self.transforms@[i]).0.0 < (
            #[trigger] self.transforms@[j]).0.0
        &&& forall|i: int|
            0 <= i < self.transforms@.len() ==> (#[trigger] self.transforms@[i]).0.0
                < self.next_t_idx
        &&& forall|i: int|
            0 <= i < self.transforms@.len() ==> (#[trigger] self.transforms@[i]).1.data().wf()
        &&& forall|i: int, j: int|
            0 <= i < j < self.outputs@.len() ==> (#[trigger] self.outputs@[i]).0.0 < (
            #[trigger] self.outputs@[j]).0.0
        &&& forall|i: int|
            0 <= i < self.outputs@.len() ==> (#[trigger] self.outputs@[i]).0.0
                < self.next_output_id
        &&& forall|i: int, j: int|
            0 <= i < j < self.edges@.len() ==> edge_lt(
                #[trigger] self.edges@[i],
                #[trigger] self.edges@[j],
            )
        &&& forall|k: int|
            0 <= k < self.edges@.len() ==> self.valid_output((#[trigger] self.edges@[k]).0)
                && self.valid_input(self.edges@[k].1) && self.output_type_of(self.edges@[k].0)
                == self.input_type_of(self.edges@[k].1)
        &&& forall|i: int, j: int|
            0 <= i < self.edges@.len() && 0 <= j < self.edges@.len() && i != j ==> (
            #[trigger] self.edges@[i]).1 != (#[trigger] self.edges@[j]).1
        &&& forall|k: int|
            0 <= k < self.outputs@.len() ==> ((#[trigger] self.outputs@[k]).1 matches Some(o)
                ==> self.valid_output(o))
        &&& graph::acyclic(self.dep_rel())
    }

    /// Equality of the built structure: same nodes with the same
    /// descriptors and default overrides, same edges, same sinks.
    /// Mint counters and caches are not part of the structure.
    pub open(crate) spec fn structurally_equal(self, other: DST) -> bool {
        &&& self.transforms@.len() == other.transforms@.len()
        &&& forall|i: int|
            0 <= i < self.transforms@.len() ==> (#[trigger] self.transforms@[i]).0 == (
            #[trigger] other.transforms@[i]).0 && self.transforms@[i].1.data().t == other.transforms@[i].1.data().t
                && self.transforms@[i].1.data().input_defaults == other.transforms@[i].1.data().input_defaults
        &&& self.edges@ == other.edges@
        &&& self.outputs@ == other.outputs@
    }

    /// Equality of everything but the caches: the built structure and
    /// the mint counters.
    pub open(crate) spec fn same_structure(self, other: DST) -> bool {
        &&& self.structurally_equal(other)
        &&& self.next_t_idx == other.next_t_idx
        &&& self.next_output_id == other.next_output_id
        &&& forall|i: int|
            0 <= i < self.transforms@.len() ==> (#[trigger] self.transforms@[i]).1.data().cache.len() == (
            #[trigger] other.transforms@[i]).1.data().cache.len()
    }

    /// An empty graph.
    pub fn new() -> (r: DST)
        ensures
            r.wf(),
            r.t_seq().len() == 0,
            r.e_seq().len() == 0,
            r.o_seq().len() == 0,
            r.next_t() == 1,
            r.next_o() == 1,
    {
        let r = DST {
            transforms: Vec::new(),
            edges: Vec::new(),
            outputs: Vec::new(),
            next_t_idx: 1,
            next_output_id: 1,
        };
        proof {
            graph::lemma_empty_acyclic(r.dep_rel());
        }
        r
    }

    /// The position of node `idx` in the transform table, if present.
    pub(crate) fn find_transform(&self, idx: TransformIdx) -> (r: Option<usize>)
        ensures
            r is None ==> !self.has_t(idx.0 as int),
            r matches Some(i) ==> i < self.transforms@.len() && self.transforms@[i as int].0 == idx,
    {
        let mut i: usize = 0;
        while i < self.transforms.len()
            invariant
                i <= self.transforms.len(),
                forall|k: int| 0 <= k < i ==> (#[trigger] self.transforms@[k]).0.0 != idx.0,
            decreases self.transforms.len() - i,
        {
            if self.transforms[i].0.id() == idx.id() {
                return Some(i);
            }
            i += 1;
        }
        None
    }

    /// The position of output node `id` in the sink table, if present.
    pub(crate) fn find_output_id(&self, id: OutputId) -> (r: Option<usize>)
        ensures
            r is None ==> !self.has_oid(id.0 as int),
            r matches Some(i) ==> i < self.outputs@.len() && self.outputs@[i as int].0 == id,
    {
        let mut i: usize = 0;
        while i < self.outputs.len()
            invariant
                i <= self.outputs.len(),
                forall|k: int| 0 <= k < i ==> (#[trigger] self.outputs@[k]).0.0 != id.0,
            decreases self.outputs.len() - i,
        {
            if self.outputs[i].0.id() == id.id() {
                return Some(i);
            }
            i += 1;
        }
        None
    }

    /// Under well-formedness, positions in the transform table are
    /// determined by the id.
    pub(crate) proof fn lemma_t_index_unique(self, i: int)
        requires
            forall|a: int, b: int|
                0 <= a < b < self.transforms@.len() ==> (#[trigger] self.transforms@[a]).0.0 < (
                #[trigger] self.transforms@[b]).0.0,
            0 <= i < self.transforms@.len(),
        ensures
            self.t_index(self.transforms@[i].0.0 as int) == i,
    {
        let t = self.transforms@[i].0.0 as int;
        assert(self.has_t(t));
        let j = self.t_index(t);
        assert(0 <= j < self.transforms@.len() && self.transforms@[j].0.0 == t);
        if i < j {
            assert(self.transforms@[i].0.0 < self.transforms@[j].0.0);
        } else if j < i {
            assert(self.transforms@[j].0.0 < self.transforms@[i].0.0);
        }
    }

    /// Under well-formedness, positions in the sink table are
    /// determined by the id.
    pub(crate) proof fn lemma_oid_index_unique(self, i: int)
        requires
            forall|a: int, b: int|
                0 <= a < b < self.outputs@.len() ==> (#[trigger] self.outputs@[a]).0.0 < (
                #[trigger] self.outputs@[b]).0.0,
            0 <= i < self.outputs@.len(),
        ensures
            self.oid_index(self.outputs@[i].0.0 as int) == i,
    {
        let t = self.outputs@[i].0.0 as int;
        assert(self.has_oid(t));
        let j = self.oid_index(t);
        assert(0 <= j < self.outputs@.len() && self.outputs@[j].0.0 == t);
        if i < j {
            assert(self.outputs@[i].0.0 < self.outputs@[j].0.0);
        } else if j < i {
            assert(self.outputs@[j].0.0 < self.outputs@[i].0.0);
        }
    }

    /// Whether a fresh transform index can still be minted.
    pub fn can_mint_transform(&self) -> (r: bool)
        ensures
            r == (self.next_t() < usize::MAX),
    {
        self.next_t_idx < usize::MAX
    }

    /// Whether a fresh output id can still be minted.
    pub fn can_mint_output(&self) -> (r: bool)
        ensures
            r == (self.next_o() < usize::MAX),
    {
        self.next_output_id < usize::MAX
    }

    /// The descriptor of node `idx`, if present.
    pub fn get_transform(&self, idx: TransformIdx) -> (r: Option<&Transformation>)
        requires
            self.wf(),
        ensures
            r is None ==> !self.has_t(idx.0 as int),
            r matches Some(t) ==> self.has_t(idx.0 as int) && t@ == self.meta_data(
                idx.0 as int,
            ).t,
    {
        match self.find_transform(idx) {
            None => None,
            Some(i) => {
                proof {
                    self.lemma_t_index_unique(i as int);
                }
                Some(&self.transforms[i].1.t)
            },
        }
    }

    /// The per-instance default input values of node `idx`, if present.
    pub fn get_default_inputs(&self, idx: TransformIdx) -> (r: Option<&Vec<Option<IOValue>>>)
        requires
            self.wf(),
        ensures
            r is None ==> !self.has_t(idx.0 as int),
            r matches Some(d) ==> self.has_t(idx.0 as int) && d.deep_view() == self.meta_data(
                idx.0 as int,
            ).input_defaults,
    {
        match self.find_transform(idx) {
            None => None,
            Some(i) => {
                proof {
                    self.lemma_t_index_unique(i as int);
                }
                Some(&self.transforms[i].1.input_defaults)
            },
        }
    }
}

} // verus!
