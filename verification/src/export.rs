//! Conversion of the graph to and from an order-stable portable form.
//!
//! The portable form lists transforms ascending by index, emitting for
//! each either the registry name of its function or its constant
//! values inline, together with the per-instance default inputs;
//! edges and sink attachments follow, each ascending.  Loading
//! resolves names against the host registry and replays the builder
//! checks, so that every invariant is re-established; any violation
//! aborts the import.

use vstd::prelude::*;

use crate::dst::DSTError;
use crate::graph;
use crate::dst::Input;
use crate::dst::MetaTransform;
use crate::dst::Output;
use crate::dst::OutputId;
use crate::dst::TransformIdx;
use crate::dst::DST;
use crate::transform::AlgoData;
use crate::transform::Algorithm;
use crate::transform::NamedAlgorithms;
use crate::transform::TransData;
use crate::transform::Transformation;
use crate::transform::clone_values;
use crate::transform::constant_descriptor;
use crate::value::IOType;
use crate::value::IOValue;
use crate::value::TypeContent;
use crate::value::ValueData;
use crate::value::duplicate_option_value;

verus! {

/// The portable form of one transform: a registry name, or constant
/// values inline.
#[derive(Debug, Clone, PartialEq)]
pub enum SerialTransform {
    Function(String),
    Constant(Vec<IOValue>),
}

/// The mathematical model of a [`SerialTransform`] or a
/// [`DeserTransform`].
pub enum STData {
    Function(Seq<char>),
    Constant(Seq<ValueData>),
}

impl View for SerialTransform {
    type V = STData;

    open spec fn view(&self) -> STData {
        match self {
            SerialTransform::Function(name) => STData::Function(name@),
            SerialTransform::Constant(c) => STData::Constant(c.deep_view()),
        }
    }
}

/// The portable form of a descriptor: constants are emitted inline,
/// functions by their registry name.
pub open spec fn serial_of(t: TransData) -> STData {
    match t.algorithm {
        AlgoData::Constant(c) => STData::Constant(c),
        AlgoData::Function => STData::Function(t.name),
    }
}

impl SerialTransform {
    /// The portable form of the given descriptor.
    pub fn new(t: &Transformation) -> (r: Self)
        ensures
            r@ == serial_of(t@),
    {
        match &t.algorithm {
            Algorithm::Function => SerialTransform::Function(t.name.clone()),
            Algorithm::Constant(c) => SerialTransform::Constant(clone_values(c)),
        }
    }
}

/// The portable form of a whole graph.
#[derive(Debug, Clone, PartialEq)]
pub struct SerialDST {
    /// Transforms ascending by index, each with its per-instance
    /// default inputs.
    pub transforms: Vec<(TransformIdx, SerialTransform, Vec<Option<IOValue>>)>,
    /// Edges ascending.
    pub edges: Vec<(Output, Input)>,
    /// Sink attachments ascending by id.
    pub outputs: Vec<(OutputId, Option<Output>)>,
}

/// The mathematical model of a [`SerialDST`] or a [`DeserDST`].
pub struct SerialData {
    pub transforms: Seq<(TransformIdx, STData, Seq<Option<ValueData>>)>,
    pub edges: Seq<(Output, Input)>,
    pub outputs: Seq<(OutputId, Option<Output>)>,
}

impl View for SerialDST {
    type V = SerialData;

    open spec fn view(&self) -> SerialData {
        SerialData {
            transforms: Seq::new(
                self.transforms@.len(),
                |i: int|
                    (
                        self.transforms@[i].0,
                        self.transforms@[i].1@,
                        self.transforms@[i].2.deep_view(),
                    ),
            ),
            edges: self.edges@,
            outputs: self.outputs@,
        }
    }
}

/// What exporting a graph yields: its transforms ascending with their
/// defaults, its edges and its sinks.
pub open(crate) spec fn export_view(g: DST) -> SerialData {
    SerialData {
        transforms: Seq::new(
            g.t_seq().len(),
            |i: int|
                (
                    g.t_seq()[i].0,
                    serial_of(g.t_seq()[i].1.data().t),
                    g.t_seq()[i].1.data().input_defaults,
                ),
        ),
        edges: g.e_seq(),
        outputs: g.o_seq(),
    }
}

impl SerialDST {
    /// Convert a graph to its portable form.
    pub fn new(dst: &DST) -> (r: SerialDST)
        requires
            dst.wf(),
        ensures
            r@ == export_view(*dst),
    {
        let mut transforms: Vec<(TransformIdx, SerialTransform, Vec<Option<IOValue>>)> =
            Vec::new();
        let mut i: usize = 0;
        while i < dst.transforms.len()
            invariant
                i <= dst.t_seq().len(),
                transforms@.len() == i,
                forall|k: int|
                    0 <= k < i ==> (#[trigger] transforms@[k]).0 == dst.t_seq()[k].0
                        && transforms@[k].1@ == serial_of(dst.t_seq()[k].1.data().t)
                        && transforms@[k].2.deep_view() == dst.t_seq()[k].1.data().input_defaults,
            decreases dst.t_seq().len() - i,
        {
            let entry = &dst.transforms[i];
            let st = SerialTransform::new(entry.1.transform());
            let mut defaults: Vec<Option<IOValue>> = Vec::new();
            let mut j: usize = 0;
            while j < entry.1.input_defaults.len()
                invariant
                    j <= entry.1.input_defaults@.len(),
                    defaults@.len() == j,
                    forall|k: int|
                        0 <= k < j ==> (#[trigger] defaults@[k]).deep_view()
                            == entry.1.input_defaults@[k].deep_view(),
                decreases entry.1.input_defaults@.len() - j,
            {
                defaults.push(duplicate_option_value(&entry.1.input_defaults[j]));
                j += 1;
            }
            proof {
                assert(defaults.deep_view() =~= entry.1.input_defaults.deep_view());
            }
            transforms.push((entry.0, st, defaults));
            i += 1;
        }
        let mut edges: Vec<(Output, Input)> = Vec::new();
        let mut k: usize = 0;
        while k < dst.edges.len()
            invariant
                k <= dst.e_seq().len(),
                edges@ == dst.e_seq().subrange(0, k as int),
            decreases dst.e_seq().len() - k,
        {
            edges.push(dst.edges[k]);
            proof {
                assert(edges@ =~= dst.e_seq().subrange(0, k as int + 1));
            }
            k += 1;
        }
        let mut outputs: Vec<(OutputId, Option<Output>)> = Vec::new();
        let mut k2: usize = 0;
        while k2 < dst.outputs.len()
            invariant
                k2 <= dst.o_seq().len(),
                outputs@ == dst.o_seq().subrange(0, k2 as int),
            decreases dst.o_seq().len() - k2,
        {
            outputs.push(dst.outputs[k2]);
            proof {
                assert(outputs@ =~= dst.o_seq().subrange(0, k2 as int + 1));
            }
            k2 += 1;
        }
        let r = SerialDST { transforms, edges, outputs };
        proof {
            assert(edges@ =~= dst.e_seq());
            assert(outputs@ =~= dst.o_seq());
            assert(r@.transforms =~= export_view(*dst).transforms);
        }
        r
    }

    /// Turn the portable form into a loading plan, consuming it.
    pub fn into_deser(self) -> (r: DeserDST)
        ensures
            r@ == self@,
    {
        let mut transforms: Vec<(TransformIdx, DeserTransform, Vec<Option<IOValue>>)> = Vec::new();
        let ghost sv = self@;
        let mut rest = self.transforms;
        let ghost orig = rest@;
        while rest.len() > 0
            invariant
                transforms@.len() + rest@.len() == orig.len(),
                rest@ == orig.subrange(transforms@.len() as int, orig.len() as int),
                forall|k: int|
                    0 <= k < transforms@.len() ==> (#[trigger] transforms@[k]).0 == orig[k].0
                        && transforms@[k].1@ == orig[k].1@ && transforms@[k].2 == orig[k].2,
            decreases rest@.len(),
        {
            let ghost i = transforms@.len();
            let (idx, st, defaults) = rest.remove(0);
            let dt = match st {
                SerialTransform::Function(name) => DeserTransform::Function(name),
                SerialTransform::Constant(c) => DeserTransform::Constant(c),
            };
            transforms.push((idx, dt, defaults));
            proof {
                assert(rest@ =~= orig.subrange(i as int + 1, orig.len() as int));
            }
        }
        let r = DeserDST { transforms, edges: self.edges, outputs: self.outputs };
        proof {
            assert(r@.transforms =~= sv.transforms);
        }
        r
    }
}

/// Errors while loading a portable graph.
#[derive(Debug, Clone, PartialEq)]
pub enum ImportError {
    /// A named transform is not in the registry.
    TransformNotFound(String),
    /// The portable form itself is malformed: entries out of order,
    /// mismatched defaults, or an oversized id.
    Malformed(String),
    /// Replaying the build rejected an edge or an attachment.
    InvalidDST(DSTError),
}

/// The loading-side form of one transform.
#[derive(Debug, Clone, PartialEq)]
pub enum DeserTransform {
    Function(String),
    Constant(Vec<IOValue>),
}

impl View for DeserTransform {
    type V = STData;

    open spec fn view(&self) -> STData {
        match self {
            DeserTransform::Function(name) => STData::Function(name@),
            DeserTransform::Constant(c) => STData::Constant(c.deep_view()),
        }
    }
}

impl DeserTransform {
    /// Resolve to a descriptor: a constant is rebuilt from its inline
    /// values, a function is looked up in the registry of `A`.
    pub fn into<A: NamedAlgorithms>(self) -> (r: Result<Transformation, ImportError>)
        ensures
            self@ matches STData::Constant(c) ==> (r matches Ok(t) && t@ == constant_descriptor(
                c,
            )),
            self@ is Function ==> (r matches Err(e) ==> e is TransformNotFound),
    {
        match self {
            DeserTransform::Function(name) => {
                match A::get_transform(name.as_str()) {
                    Some(t) => Ok(t),
                    None => Err(ImportError::TransformNotFound(name)),
                }
            },
            DeserTransform::Constant(c) => Ok(Transformation::new_constant(c)),
        }
    }
}

/// The loading plan for a whole graph.
#[derive(Debug, Clone, PartialEq)]
pub struct DeserDST {
    pub transforms: Vec<(TransformIdx, DeserTransform, Vec<Option<IOValue>>)>,
    pub edges: Vec<(Output, Input)>,
    pub outputs: Vec<(OutputId, Option<Output>)>,
}

impl View for DeserDST {
    type V = SerialData;

    open spec fn view(&self) -> SerialData {
        SerialData {
            transforms: Seq::new(
                self.transforms@.len(),
                |i: int|
                    (
                        self.transforms@[i].0,
                        self.transforms@[i].1@,
                        self.transforms@[i].2.deep_view(),
                    ),
            ),
            edges: self.edges@,
            outputs: self.outputs@,
        }
    }
}


/// A loading plan with names resolved: each node's index, descriptor
/// and default inputs.
pub type ResolvedEntry = (TransformIdx, Transformation, Vec<Option<IOValue>>);

/// The model of a resolved entry.
pub type ResolvedData = (TransformIdx, TransData, Seq<Option<ValueData>>);

/// Whether the plan holds a node with numeric id `t`.
pub open(crate) spec fn rt_has_t(rt: Seq<ResolvedData>, t: int) -> bool {
    exists|i: int| 0 <= i < rt.len() && (#[trigger] rt[i]).0.0 == t
}

/// The position of node `t` in the plan.
pub open(crate) spec fn rt_t_index(rt: Seq<ResolvedData>, t: int) -> int {
    choose|i: int| 0 <= i < rt.len() && (#[trigger] rt[i]).0.0 == t
}

/// Whether the plan declares the output port.
pub open(crate) spec fn rt_valid_output(rt: Seq<ResolvedData>, o: Output) -> bool {
    rt_has_t(rt, o.t_idx.0 as int) && (o.output_i as int) < rt[rt_t_index(
        rt,
        o.t_idx.0 as int,
    )].1.output.len()
}

/// Whether the plan declares the input port.
pub open(crate) spec fn rt_valid_input(rt: Seq<ResolvedData>, i: Input) -> bool {
    rt_has_t(rt, i.t_idx.0 as int) && (i.input_i as int) < rt[rt_t_index(
        rt,
        i.t_idx.0 as int,
    )].1.input.len()
}

/// The declared tag of an output port of the plan.
pub open(crate) spec fn rt_output_type(rt: Seq<ResolvedData>, o: Output) -> IOType {
    rt[rt_t_index(rt, o.t_idx.0 as int)].1.output[o.output_i as int]
}

/// The declared tag of an input port of the plan.
pub open(crate) spec fn rt_input_type(rt: Seq<ResolvedData>, i: Input) -> IOType {
    rt[rt_t_index(rt, i.t_idx.0 as int)].1.input[i.input_i as int].0
}

/// The node part of a well-formed plan: ids ascending with room to
/// mint successors, descriptors valid, defaults matching their
/// declared tags.
pub open(crate) spec fn serial_ok_transforms(rt: Seq<ResolvedData>) -> bool {
    &&& forall|i: int, j: int| 0 <= i < j < rt.len() ==> (#[trigger] rt[i]).0.0 < (#[trigger] rt[j]).0.0
    &&& forall|i: int| 0 <= i < rt.len() ==> (#[trigger] rt[i]).0.0 < usize::MAX
    &&& forall|i: int| 0 <= i < rt.len() ==> (#[trigger] rt[i]).1.valid()
    &&& forall|i: int| 0 <= i < rt.len() ==> (#[trigger] rt[i]).2.len() == rt[i].1.input.len()
    &&& forall|i: int, j: int|
        0 <= i < rt.len() && 0 <= j < rt[i].2.len() ==> ((#[trigger] rt[i].2[j]) matches Some(d)
            ==> d.tag() == rt[i].1.input[j].0)
}

/// The edge part of a well-formed plan: edges ascending between
/// declared ports of equal tags, each input driven at most once, no
/// cycle.
pub open(crate) spec fn serial_ok_edges(rt: Seq<ResolvedData>, edges: Seq<(Output, Input)>) -> bool {
    &&& forall|a: int, b: int|
        0 <= a < b < edges.len() ==> crate::dst::edge_lt(#[trigger] edges[a], #[trigger] edges[b])
    &&& forall|k: int|
        0 <= k < edges.len() ==> rt_valid_output(rt, (#[trigger] edges[k]).0) && rt_valid_input(
            rt,
            edges[k].1,
        ) && rt_output_type(rt, edges[k].0) == rt_input_type(rt, edges[k].1)
    &&& forall|i: int, j: int|
        0 <= i < edges.len() && 0 <= j < edges.len() && i != j ==> (#[trigger] edges[i]).1 != (
        #[trigger] edges[j]).1
    &&& graph::acyclic(crate::dst::edges_dep_rel(edges))
}

/// The sink part of a well-formed plan: ids ascending with room to
/// mint successors, attachments to declared ports.
pub open(crate) spec fn serial_ok_outputs(
    rt: Seq<ResolvedData>,
    outputs: Seq<(OutputId, Option<Output>)>,
) -> bool {
    &&& forall|i: int, j: int|
        0 <= i < j < outputs.len() ==> (#[trigger] outputs[i]).0.0 < (#[trigger] outputs[j]).0.0
    &&& forall|i: int| 0 <= i < outputs.len() ==> (#[trigger] outputs[i]).0.0 < usize::MAX
    &&& forall|k: int|
        0 <= k < outputs.len() ==> ((#[trigger] outputs[k]).1 matches Some(o) ==> rt_valid_output(
            rt,
            o,
        ))
}

/// Whether a resolved plan describes a well-formed graph.
pub open(crate) spec fn serial_ok(
    rt: Seq<ResolvedData>,
    edges: Seq<(Output, Input)>,
    outputs: Seq<(OutputId, Option<Output>)>,
) -> bool {
    serial_ok_transforms(rt) && serial_ok_edges(rt, edges) && serial_ok_outputs(rt, outputs)
}

/// The model of a list of resolved entries.
pub open(crate) spec fn rt_view(s: Seq<(TransformIdx, Transformation, Vec<Option<IOValue>>)>) -> Seq<
    ResolvedData,
> {
    Seq::new(s.len(), |i: int| (s[i].0, s[i].1@, s[i].2.deep_view()))
}

/// The plan a purely-constant portable graph resolves to: every
/// entry rebuilt as the canonical constant descriptor.
pub open(crate) spec fn constant_plan(sd: SerialData) -> Seq<ResolvedData> {
    Seq::new(
        sd.transforms.len(),
        |i: int|
            (
                sd.transforms[i].0,
                constant_descriptor(sd.transforms[i].1->Constant_0),
                sd.transforms[i].2,
            ),
    )
}

/// Whether the graph is exactly what loading the plan builds: its
/// nodes in plan order with empty caches, its edges and sinks as
/// listed.
pub open(crate) spec fn assembled_from(
    g: DST,
    rt: Seq<ResolvedData>,
    edges: Seq<(Output, Input)>,
    outputs: Seq<(OutputId, Option<Output>)>,
) -> bool {
    &&& g.t_seq().len() == rt.len()
    &&& forall|i: int|
        0 <= i < rt.len() ==> (#[trigger] g.t_seq()[i]).0 == rt[i].0 && g.t_seq()[i].1.data().t
            == rt[i].1 && g.t_seq()[i].1.data().input_defaults == rt[i].2
            && g.t_seq()[i].1.data().cache.len() == rt[i].1.output.len() && (forall|j: int|
            0 <= j < g.t_seq()[i].1.data().cache.len()
                ==> (#[trigger] g.t_seq()[i].1.data().cache[j]) is None)
    &&& g.e_seq() == edges
    &&& g.o_seq() == outputs
}

impl DST {
    /// In a plan-mirroring table, ports are declared in the plan
    /// exactly when they exist in the graph, with the same tags.
    pub(crate) proof fn lemma_table_ports(g: DST, rt: Seq<ResolvedData>)
        requires
            g.wf(),
            g.t_seq().len() == rt.len(),
            forall|i: int|
                0 <= i < rt.len() ==> (#[trigger] g.t_seq()[i]).0 == rt[i].0 && g.t_seq()[
                    i].1.data().t == rt[i].1,
        ensures
            forall|t: int| g.has_t(t) <==> rt_has_t(rt, t),
            forall|t: int| g.has_t(t) ==> rt_t_index(rt, t) == g.t_index(t),
            forall|o: Output| g.valid_output(o) <==> rt_valid_output(rt, o),
            forall|i: Input| g.valid_input(i) <==> rt_valid_input(rt, i),
            forall|o: Output| g.valid_output(o) ==> g.output_type_of(o) == rt_output_type(rt, o),
            forall|i: Input| g.valid_input(i) ==> g.input_type_of(i) == rt_input_type(rt, i),
    {
        assert forall|t: int| g.has_t(t) implies rt_has_t(rt, t) && rt_t_index(rt, t) == g.t_index(
            t,
        ) by {
            let i = g.t_index(t);
            assert(rt[i].0.0 == t);
            assert(rt_has_t(rt, t));
            let j = rt_t_index(rt, t);
            assert(rt[j].0.0 == t);
            if i != j {
                assert(g.t_seq()[j].0.0 == t);
                if i < j {
                    assert(g.t_seq()[i].0.0 < g.t_seq()[j].0.0);
                } else {
                    assert(g.t_seq()[j].0.0 < g.t_seq()[i].0.0);
                }
            }
        }
        assert forall|t: int| rt_has_t(rt, t) implies g.has_t(t) by {
            let i = rt_t_index(rt, t);
            assert(g.t_seq()[i].0.0 == t);
        }
    }

    /// Append a node with an explicit index to a graph that has no
    /// edges or sinks yet.  The index must come strictly after every
    /// present one.
    fn add_transform_with_id(&mut self, id: TransformIdx, meta: MetaTransform) -> (r: Result<
        (),
        ImportError,
    >)
        requires
            old(self).wf(),
            old(self).e_seq().len() == 0,
            old(self).o_seq().len() == 0,
            meta.data().wf(),
        ensures
            final(self).wf(),
            final(self).e_seq().len() == 0,
            final(self).o_seq().len() == 0,
            r is Err <==> (id.0 == usize::MAX || (old(self).t_seq().len() > 0 && old(self).t_seq()[
                old(self).t_seq().len() - 1].0.0 >= id.0)),
            r is Err ==> *final(self) == *old(self) && (r matches Err(e) && e is Malformed),
            r is Ok ==> final(self).t_seq() == old(self).t_seq().push((id, meta)) && final(self).o_seq() == old(self).o_seq(),
    {
        if id.id() == usize::MAX {
            return Err(ImportError::Malformed("node id too large".to_owned()));
        }
        if self.transforms.len() > 0 && self.transforms[self.transforms.len() - 1].0.id()
            >= id.id() {
            return Err(ImportError::Malformed("node ids out of order".to_owned()));
        }
        self.transforms.push((id, meta));
        if self.next_t_idx <= id.id() {
            self.next_t_idx = id.id() + 1;
        }
        proof {
            let new = *self;
            let prev = *old(self);
            assert(new.t_seq() == prev.t_seq().push((id, meta)));
            assert forall|i: int, j: int|
                0 <= i < j < new.t_seq().len() implies (#[trigger] new.t_seq()[i]).0.0 < (
            #[trigger] new.t_seq()[j]).0.0 by {
                if j < new.t_seq().len() - 1 {
                    assert(prev.t_seq()[i].0.0 < prev.t_seq()[j].0.0);
                } else if i < new.t_seq().len() - 1 {
                    assert(prev.t_seq()[i].0.0 <= prev.t_seq()[prev.t_seq().len() - 1].0.0) by {
                        if i < prev.t_seq().len() - 1 {
                            assert(prev.t_seq()[i].0.0 < prev.t_seq()[prev.t_seq().len() - 1].0.0);
                        }
                    }
                }
            }
            assert forall|i: int| 0 <= i < new.t_seq().len() implies (
            #[trigger] new.t_seq()[i]).0.0 < new.next_t() by {
                if i < new.t_seq().len() - 1 {
                    assert(prev.t_seq()[i].0.0 < prev.next_t());
                }
            }
            assert(new.dep_rel() =~= Set::<(int, int)>::empty());
            graph::lemma_empty_acyclic(new.dep_rel());
            assert(new.wf());
        }
        Ok(())
    }

    /// Append a detached sink with an explicit id.  The id must come
    /// strictly after every present one.
    fn add_output_with_id(&mut self, id: OutputId) -> (r: Result<(), ImportError>)
        requires
            old(self).wf(),
        ensures
            final(self).wf(),
            r is Err <==> (id.0 == usize::MAX || (old(self).o_seq().len() > 0 && old(self).o_seq()[
                old(self).o_seq().len() - 1].0.0 >= id.0)),
            r is Err ==> *final(self) == *old(self) && (r matches Err(e) && e is Malformed),
            r is Ok ==> final(self).o_seq() == old(self).o_seq().push((id, None)) && final(self).t_seq() == old(self).t_seq() && final(self).e_seq() == old(self).e_seq() && final(self).next_t() == old(self).next_t() && final(self).has_oid(id.0 as int) && final(self).oid_index(id.0 as int) == old(self).o_seq().len(),
    {
        if id.id() == usize::MAX {
            return Err(ImportError::Malformed("sink id too large".to_owned()));
        }
        if self.outputs.len() > 0 && self.outputs[self.outputs.len() - 1].0.id() >= id.id() {
            return Err(ImportError::Malformed("sink ids out of order".to_owned()));
        }
        self.outputs.push((id, None));
        if self.next_output_id <= id.id() {
            self.next_output_id = id.id() + 1;
        }
        proof {
            let new = *self;
            let prev = *old(self);
            assert(new.o_seq() == prev.o_seq().push((id, None)));
            assert forall|i: int, j: int|
                0 <= i < j < new.o_seq().len() implies (#[trigger] new.o_seq()[i]).0.0 < (
            #[trigger] new.o_seq()[j]).0.0 by {
                if j < new.o_seq().len() - 1 {
                    assert(prev.o_seq()[i].0.0 < prev.o_seq()[j].0.0);
                } else if i < new.o_seq().len() - 1 {
                    assert(prev.o_seq()[i].0.0 <= prev.o_seq()[prev.o_seq().len() - 1].0.0) by {
                        if i < prev.o_seq().len() - 1 {
                            assert(prev.o_seq()[i].0.0 < prev.o_seq()[prev.o_seq().len() - 1].0.0);
                        }
                    }
                }
            }
            assert forall|i: int| 0 <= i < new.o_seq().len() implies (
            #[trigger] new.o_seq()[i]).0.0 < new.next_o() by {
                if i < new.o_seq().len() - 1 {
                    assert(prev.o_seq()[i].0.0 < prev.next_o());
                }
            }
            DST::lemma_dep_rel_eq(prev, new);
            assert forall|k: int| 0 <= k < new.o_seq().len() implies ((
            #[trigger] new.o_seq()[k]).1 matches Some(o) ==> new.valid_output(o)) by {
                if k < new.o_seq().len() - 1 && new.o_seq()[k].1 is Some {
                    let o = new.o_seq()[k].1->Some_0;
                    assert(prev.valid_output(o));
                }
            }
            assert(new.wf());
            assert(new.o_seq()[new.o_seq().len() - 1].0.0 == id.0);
            assert(new.has_oid(id.0 as int));
            new.lemma_oid_index_unique(new.o_seq().len() - 1);
        }
        Ok(())
    }
}


impl DST {
    /// Build the node table of a loading plan: an empty graph whose
    /// nodes mirror the entries in order.
    fn load_transforms(entries: Vec<ResolvedEntry>) -> (r: Result<DST, ImportError>)
        ensures
            r matches Ok(g) ==> g.wf() && g.e_seq().len() == 0 && g.o_seq().len() == 0
                && g.t_seq().len() == rt_view(entries@).len() && (forall|i: int|
                0 <= i < rt_view(entries@).len() ==> (#[trigger] g.t_seq()[i]).0 == rt_view(
                    entries@,
                )[i].0 && g.t_seq()[i].1.data().t == rt_view(entries@)[i].1
                    && g.t_seq()[i].1.data().input_defaults == rt_view(entries@)[i].2
                    && g.t_seq()[i].1.data().cache.len() == rt_view(entries@)[i].1.output.len() && (
                forall|j: int|
                    0 <= j < g.t_seq()[i].1.data().cache.len()
                        ==> (#[trigger] g.t_seq()[i].1.data().cache[j]) is None)),
            r is Err ==> !serial_ok_transforms(rt_view(entries@)),
            r matches Err(e) ==> e is Malformed,
    {
        let ghost rt = rt_view(entries@);
        let mut g = DST::new();
        let mut rest = entries;
        let ghost orig = rest@;
        while rest.len() > 0
            invariant
                rt == rt_view(orig),
                rt == rt_view(entries@),
                g.wf(),
                g.e_seq().len() == 0,
                g.o_seq().len() == 0,
                g.t_seq().len() + rest@.len() == orig.len(),
                rest@ == orig.subrange(g.t_seq().len() as int, orig.len() as int),
                forall|i: int|
                    0 <= i < g.t_seq().len() ==> (#[trigger] g.t_seq()[i]).0 == rt[i].0
                        && g.t_seq()[i].1.data().t == rt[i].1
                        && g.t_seq()[i].1.data().input_defaults == rt[i].2
                        && g.t_seq()[i].1.data().cache.len() == rt[i].1.output.len() && (forall|
                        j: int,
                    |
                        0 <= j < g.t_seq()[i].1.data().cache.len()
                            ==> (#[trigger] g.t_seq()[i].1.data().cache[j]) is None),
            decreases rest@.len(),
        {
            let ghost i = g.t_seq().len();
            let (idx, t, defaults) = rest.remove(0);
            proof {
                assert(orig[i as int].0 == idx && orig[i as int].1 == t && orig[i as int].2
                    == defaults);
                assert(rt[i as int] == (idx, t@, defaults.deep_view()));
            }
            if !t.is_valid() {
                proof {
                    assert(!rt[i as int].1.valid());
                }
                return Err(ImportError::Malformed("invalid transform descriptor".to_owned()));
            }
            if defaults.len() != t.input.len() {
                return Err(ImportError::Malformed("default inputs do not match arity".to_owned()));
            }
            let mut j: usize = 0;
            while j < defaults.len()
                invariant
                    rt == rt_view(entries@),
                    defaults@.len() == t@.input.len(),
                    j <= defaults@.len(),
                    rt[i as int] == (idx, t@, defaults.deep_view()),
                    0 <= i < rt.len(),
                    forall|k: int|
                        0 <= k < j ==> ((#[trigger] defaults.deep_view()[k]) matches Some(d)
                            ==> d.tag() == t@.input[k].0),
                decreases defaults@.len() - j,
            {
                match &defaults[j] {
                    Some(d) => {
                        if d.get_type() != t.input[j].0 {
                            proof {
                                assert(defaults.deep_view()[j as int] == Some(d@));
                                assert(t@.input[j as int].0 == t.input@[j as int].0);
                                assert(!((rt[i as int].2[j as int]) matches Some(dd) ==> dd.tag()
                                    == rt[i as int].1.input[j as int].0));
                            }
                            return Err(
                                ImportError::Malformed(
                                    "default input has the wrong type".to_owned(),
                                ),
                            );
                        }
                        proof {
                            assert(defaults.deep_view()[j as int] == Some(d@));
                            assert(t@.input[j as int].0 == t.input@[j as int].0);
                        }
                    },
                    None => {
                        proof {
                            assert(defaults.deep_view()[j as int] is None);
                        }
                    },
                }
                j += 1;
            }
            let mut meta = MetaTransform::new(t);
            meta.input_defaults = defaults;
            proof {
                assert(meta.data().wf());
            }
            let ghost g_before = g;
            match g.add_transform_with_id(idx, meta) {
                Ok(()) => {
                    proof {
                        assert(g.t_seq() == g_before.t_seq().push((idx, meta)));
                        assert(rest@ =~= orig.subrange(g.t_seq().len() as int, orig.len() as int));
                    }
                },
                Err(e) => {
                    proof {
                        if idx.0 != usize::MAX {
                            assert(g_before.t_seq().len() > 0);
                            let last = g_before.t_seq().len() - 1;
                            assert(g_before.t_seq()[last].0.0 >= idx.0);
                            assert(rt[last].0.0 >= rt[i as int].0.0 && last < i);
                        }
                    }
                    return Err(e);
                },
            }
        }
        proof {
            assert(g.t_seq().len() == rt.len());
        }
        Ok(g)
    }

    /// Replay the edges of a loading plan through the connect checks.
    #[verifier::rlimit(100)]
    fn load_edges(&mut self, edges: &Vec<(Output, Input)>, Ghost(rt): Ghost<Seq<ResolvedData>>) -> (r:
        Result<(), ImportError>)
        requires
            old(self).wf(),
            old(self).e_seq().len() == 0,
            old(self).o_seq().len() == 0,
            old(self).t_seq().len() == rt.len(),
            forall|i: int|
                0 <= i < rt.len() ==> (#[trigger] old(self).t_seq()[i]).0 == rt[i].0 && old(self).t_seq()[i].1.data().t == rt[i].1 && old(self).t_seq()[i].1.data().input_defaults
                    == rt[i].2 && old(self).t_seq()[i].1.data().cache.len()
                    == rt[i].1.output.len() && (forall|j: int|
                    0 <= j < old(self).t_seq()[i].1.data().cache.len() ==> (#[trigger] old(self).t_seq()[i].1.data().cache[j]) is None),
        ensures
            final(self).wf(),
            final(self).o_seq().len() == 0,
            final(self).t_seq().len() == rt.len(),
            forall|i: int|
                0 <= i < rt.len() ==> (#[trigger] final(self).t_seq()[i]).0 == rt[i].0 && final(self).t_seq()[i].1.data().t == rt[i].1 && final(self).t_seq()[i].1.data().input_defaults
                    == rt[i].2 && final(self).t_seq()[i].1.data().cache.len()
                    == rt[i].1.output.len() && (forall|j: int|
                    0 <= j < final(self).t_seq()[i].1.data().cache.len() ==> (#[trigger] final(self).t_seq()[i].1.data().cache[j]) is None),
            r is Ok ==> final(self).e_seq() == edges@,
            r is Err ==> !serial_ok_edges(rt, edges@),
            r matches Err(e) ==> e is Malformed || e is InvalidDST,
    {
        let ghost base = *old(self);
        let mut k: usize = 0;
        while k < edges.len()
            invariant
                base == *old(self),
                base.wf(),
                base.t_seq().len() == rt.len(),
                forall|i: int|
                    0 <= i < rt.len() ==> (#[trigger] base.t_seq()[i]).0 == rt[i].0 && base.t_seq()[
                        i].1.data().t == rt[i].1,
                k <= edges@.len(),
                self.wf(),
                self.o_seq().len() == 0,
                self.e_seq() == edges@.subrange(0, k as int),
                forall|a: int, b: int|
                    0 <= a < b < k ==> crate::dst::edge_lt(
                        #[trigger] edges@[a],
                        #[trigger] edges@[b],
                    ),
                self.t_seq().len() == rt.len(),
                forall|i: int|
                    0 <= i < rt.len() ==> (#[trigger] self.t_seq()[i]).0 == rt[i].0 && self.t_seq()[
                        i].1.data().t == rt[i].1 && self.t_seq()[i].1.data().input_defaults
                        == rt[i].2 && self.t_seq()[i].1.data().cache.len()
                        == rt[i].1.output.len() && (forall|j: int|
                        0 <= j < self.t_seq()[i].1.data().cache.len()
                            ==> (#[trigger] self.t_seq()[i].1.data().cache[j]) is None),
            decreases edges@.len() - k,
        {
            let e = edges[k];
            if k > 0 && !Self::edge_less(&edges[k - 1], &e) {
                proof {
                    assert(!crate::dst::edge_lt(edges@[k as int - 1], edges@[k as int]));
                }
                return Err(ImportError::Malformed("edges out of order".to_owned()));
            }
            proof {
                // every present edge comes strictly before the new one
                assert forall|j: int| 0 <= j < k implies crate::dst::edge_lt(
                    #[trigger] edges@[j],
                    e,
                ) by {
                    if j < k - 1 {
                        crate::builder::lemma_edge_lt_trans(edges@[j], edges@[k as int - 1], e);
                    }
                }
            }
            let ghost before = *self;
            match self.connect(e.0, e.1) {
                Ok(()) => {
                    proof {
                        let pos = choose|pos: int|
                            0 <= pos <= before.e_seq().len() && self.e_seq()
                                == before.e_seq().insert(pos, e);
                        if pos < before.e_seq().len() {
                            assert(self.e_seq()[pos] == e);
                            assert(self.e_seq()[pos + 1] == before.e_seq()[pos]);
                            assert(crate::dst::edge_lt(e, before.e_seq()[pos]));
                            assert(crate::dst::edge_lt(before.e_seq()[pos], e));
                            crate::builder::lemma_edge_lt_total(e, before.e_seq()[pos]);
                        }
                        assert(pos == before.e_seq().len());
                        assert(self.e_seq() =~= edges@.subrange(0, k as int + 1));
                        // the table keeps mirroring the plan
                        assert forall|i: int|
                            0 <= i < rt.len() implies (#[trigger] self.t_seq()[i]).0 == rt[i].0
                            && self.t_seq()[i].1.data().t == rt[i].1
                            && self.t_seq()[i].1.data().input_defaults == rt[i].2
                            && self.t_seq()[i].1.data().cache.len() == rt[i].1.output.len() && (
                        forall|j: int|
                            0 <= j < self.t_seq()[i].1.data().cache.len()
                                ==> (#[trigger] self.t_seq()[i].1.data().cache[j]) is None) by {
                            assert(before.t_seq()[i].1.data().cache.len()
                                == rt[i].1.output.len());
                        }
                    }
                },
                Err(err) => {
                    proof {
                        DST::lemma_table_ports(before, rt);
                        let c = e.1.t_idx.0 as int;
                        let p = e.0.t_idx.0 as int;
                        if before.valid_output(e.0) && before.valid_input(e.1)
                            && before.output_type_of(e.0) == before.input_type_of(e.1)
                            && !before.input_driven(e.1) {
                            // only the cycle check can have failed
                            assert(graph::reach(before.dep_rel(), c, p));
                            before.lemma_dep_rel_is_edges();
                            assert(before.dep_rel() == crate::dst::edges_dep_rel(
                                edges@.subrange(0, k as int),
                            ));
                            assert(crate::dst::edges_dep_rel(
                                edges@.subrange(0, k as int),
                            ).subset_of(crate::dst::edges_dep_rel(edges@))) by {
                                assert forall|pr: (int, int)|
                                    crate::dst::edges_dep_rel(
                                        edges@.subrange(0, k as int),
                                    ).contains(pr) implies crate::dst::edges_dep_rel(
                                    edges@,
                                ).contains(pr) by {
                                    let j = choose|j: int|
                                        0 <= j < k && (#[trigger] edges@.subrange(
                                            0,
                                            k as int,
                                        )[j]).0.t_idx.0 == pr.0 && edges@.subrange(
                                            0,
                                            k as int,
                                        )[j].1.t_idx.0 == pr.1;
                                    assert(edges@[j].0.t_idx.0 == pr.0 && edges@[j].1.t_idx.0
                                        == pr.1);
                                }
                            }
                            let n = choose|n: nat|
                                graph::reach_n(before.dep_rel(), c, p, n);
                            graph::lemma_reach_n_subset(
                                before.dep_rel(),
                                crate::dst::edges_dep_rel(edges@),
                                c,
                                p,
                                n,
                            );
                            assert(crate::dst::edges_dep_rel(edges@).contains((p, c))) by {
                                assert(edges@[k as int].0.t_idx.0 == p && edges@[
                                    k as int].1.t_idx.0 == c);
                            }
                            assert(graph::reach_n(
                                crate::dst::edges_dep_rel(edges@),
                                p,
                                c,
                                1,
                            )) by {
                                assert(graph::reach_n(crate::dst::edges_dep_rel(edges@), c, c, 0));
                            }
                            graph::lemma_reach_n_trans(
                                crate::dst::edges_dep_rel(edges@),
                                c,
                                p,
                                c,
                                n,
                                1,
                            );
                            assert(!graph::acyclic(crate::dst::edges_dep_rel(edges@)));
                        } else if before.valid_output(e.0) && before.valid_input(e.1)
                            && before.output_type_of(e.0) == before.input_type_of(e.1) {
                            // a driven input means a duplicate consumer
                            let j = choose|j: int|
                                0 <= j < before.e_seq().len() && (#[trigger] before.e_seq()[j]).1
                                    == e.1;
                            assert(edges@[j] == before.e_seq()[j]);
                            assert(edges@[j].1 == edges@[k as int].1 && j != k as int);
                        }
                    }
                    return Err(ImportError::InvalidDST(err));
                },
            }
            k += 1;
        }
        proof {
            assert(self.e_seq() =~= edges@);
        }
        Ok(())
    }

    /// Replay the sinks of a loading plan.
    fn load_outputs(
        &mut self,
        outputs: &Vec<(OutputId, Option<Output>)>,
        Ghost(rt): Ghost<Seq<ResolvedData>>,
    ) -> (r: Result<(), ImportError>)
        requires
            old(self).wf(),
            old(self).o_seq().len() == 0,
            old(self).t_seq().len() == rt.len(),
            forall|i: int|
                0 <= i < rt.len() ==> (#[trigger] old(self).t_seq()[i]).0 == rt[i].0 && old(self).t_seq()[i].1.data().t == rt[i].1,
        ensures
            final(self).wf(),
            final(self).t_seq() == old(self).t_seq(),
            final(self).e_seq() == old(self).e_seq(),
            r is Ok ==> final(self).o_seq() == outputs@,
            r is Err ==> !serial_ok_outputs(rt, outputs@),
            r matches Err(e) ==> e is Malformed || e is InvalidDST,
    {
        let ghost base = *old(self);
        let mut m: usize = 0;
        while m < outputs.len()
            invariant
                base == *old(self),
                base.wf(),
                base.t_seq().len() == rt.len(),
                forall|i: int|
                    0 <= i < rt.len() ==> (#[trigger] base.t_seq()[i]).0 == rt[i].0 && base.t_seq()[
                        i].1.data().t == rt[i].1,
                m <= outputs@.len(),
                self.wf(),
                self.t_seq() == base.t_seq(),
                self.e_seq() == base.e_seq(),
                self.o_seq() == outputs@.subrange(0, m as int),
            decreases outputs@.len() - m,
        {
            let (oid, att) = outputs[m];
            let ghost before = *self;
            match self.add_output_with_id(oid) {
                Ok(()) => {},
                Err(e) => {
                    proof {
                        if oid.0 != usize::MAX {
                            assert(before.o_seq().len() > 0);
                            let last = before.o_seq().len() - 1;
                            assert(outputs@[last].0.0 >= outputs@[m as int].0.0 && last < m);
                        }
                    }
                    return Err(e);
                },
            }
            match att {
                Some(o) => {
                    let ghost mid = *self;
                    match self.attach_output(oid, o) {
                        Ok(()) => {
                            proof {
                                assert(mid.oid_index(oid.0 as int) == before.o_seq().len());
                                assert(self.o_seq() =~= outputs@.subrange(0, m as int + 1));
                            }
                        },
                        Err(err) => {
                            proof {
                                assert(mid.has_oid(oid.0 as int));
                                assert(!mid.valid_output(o));
                                DST::lemma_table_ports(mid, rt);
                                assert(!rt_valid_output(rt, o));
                                assert(outputs@[m as int].1 == Some(o));
                            }
                            return Err(ImportError::InvalidDST(err));
                        },
                    }
                },
                None => {
                    proof {
                        assert(self.o_seq() =~= outputs@.subrange(0, m as int + 1));
                    }
                },
            }
            m += 1;
        }
        proof {
            assert(self.o_seq() =~= outputs@);
        }
        Ok(())
    }

    /// Load a resolved plan, re-establishing every graph invariant.
    pub(crate) fn assemble(
        entries: Vec<ResolvedEntry>,
        edges: Vec<(Output, Input)>,
        outputs: Vec<(OutputId, Option<Output>)>,
    ) -> (r: Result<DST, ImportError>)
        ensures
            r matches Ok(g) ==> g.wf() && assembled_from(g, rt_view(entries@), edges@, outputs@),
            serial_ok(rt_view(entries@), edges@, outputs@) ==> r is Ok,
            r matches Err(e) ==> e is Malformed || e is InvalidDST,
    {
        let ghost rt = rt_view(entries@);
        let mut g = match DST::load_transforms(entries) {
            Ok(g) => g,
            Err(e) => {
                return Err(e);
            },
        };
        match g.load_edges(&edges, Ghost(rt)) {
            Ok(()) => {},
            Err(e) => {
                return Err(e);
            },
        }
        match g.load_outputs(&outputs, Ghost(rt)) {
            Ok(()) => {},
            Err(e) => {
                return Err(e);
            },
        }
        Ok(g)
    }
}

impl DeserDST {
    /// Load the plan: resolve every transform against the registry of
    /// `A`, then rebuild the graph, re-establishing every invariant.
    pub fn into_dst<A: NamedAlgorithms>(self) -> (r: Result<DST, ImportError>)
        ensures
            r matches Ok(g) ==> g.wf() && (exists|rt: Seq<ResolvedData>|
                {
                    &&& rt.len() == self@.transforms.len()
                    &&& (forall|i: int|
                        0 <= i < rt.len() ==> (#[trigger] rt[i]).0 == self@.transforms[i].0
                            && rt[i].2 == self@.transforms[i].2)
                    &&& (forall|i: int|
                        0 <= i < rt.len() ==> ((#[trigger] self@.transforms[i]).1 matches
                        STData::Constant(c) ==> rt[i].1 == constant_descriptor(c)))
                    &&& assembled_from(g, rt, self@.edges, self@.outputs)
                }),
            r matches Err(e) ==> (e is TransformNotFound ==> exists|i: int|
                0 <= i < self@.transforms.len() && (#[trigger] self@.transforms[i]).1 is Function),
            (forall|i: int|
                0 <= i < self@.transforms.len() ==> (#[trigger] self@.transforms[i]).1 is Constant)
                && serial_ok(constant_plan(self@), self@.edges, self@.outputs) ==> r is Ok,
    {
        let ghost sv = self@;
        let mut entries: Vec<ResolvedEntry> = Vec::new();
        let mut rest = self.transforms;
        let ghost orig = rest@;
        while rest.len() > 0
            invariant
                sv == self@,
                entries@.len() + rest@.len() == orig.len(),
                rest@ == orig.subrange(entries@.len() as int, orig.len() as int),
                sv.transforms.len() == orig.len(),
                forall|i: int|
                    0 <= i < orig.len() ==> sv.transforms[i] == (
                        (#[trigger] orig[i]).0,
                        orig[i].1@,
                        orig[i].2.deep_view(),
                    ),
                forall|i: int|
                    0 <= i < entries@.len() ==> (#[trigger] entries@[i]).0 == sv.transforms[i].0
                        && entries@[i].2.deep_view() == sv.transforms[i].2,
                forall|i: int|
                    0 <= i < entries@.len() ==> (sv.transforms[i].1 matches STData::Constant(c)
                        ==> (#[trigger] entries@[i]).1@ == constant_descriptor(c)),
            decreases rest@.len(),
        {
            let ghost i = entries@.len();
            let (idx, dt, defaults) = rest.remove(0);
            proof {
                assert(orig[i as int].0 == idx && orig[i as int].1 == dt && orig[i as int].2
                    == defaults);
            }
            let t = match dt.into::<A>() {
                Ok(t) => t,
                Err(e) => {
                    proof {
                        // a constant entry always resolves, so the
                        // failing entry names a function
                        assert(0 <= i < sv.transforms.len());
                        assert(sv.transforms[i as int].1 is Function) by {
                            if sv.transforms[i as int].1 is Constant {
                                assert(dt@ is Constant);
                            }
                        }
                        assert(exists|j: int|
                            0 <= j < sv.transforms.len() && (#[trigger] sv.transforms[j]).1
                                is Function);
                    }
                    return Err(e);
                },
            };
            entries.push((idx, t, defaults));
            proof {
                assert(rest@ =~= orig.subrange(i as int + 1, orig.len() as int));
            }
        }
        let ghost rt = rt_view(entries@);
        proof {
            if forall|i: int|
                0 <= i < sv.transforms.len() ==> (#[trigger] sv.transforms[i]).1 is Constant {
                assert(rt =~= constant_plan(sv)) by {
                    assert forall|i: int| 0 <= i < rt.len() implies rt[i] == constant_plan(sv)[
                        i] by {
                        assert(sv.transforms[i].1 is Constant);
                        let c = sv.transforms[i].1->Constant_0;
                        assert(entries@[i].1@ == constant_descriptor(c));
                    }
                }
            }
        }
        let r = DST::assemble(entries, self.edges, self.outputs);
        proof {
            if r is Ok {
                let gv = r->Ok_0;
                assert(rt.len() == sv.transforms.len());
                assert forall|i: int|
                    0 <= i < rt.len() implies (#[trigger] rt[i]).0 == sv.transforms[i].0 && rt[i].2
                    == sv.transforms[i].2 by {}
                assert forall|i: int|
                    0 <= i < rt.len() implies ((#[trigger] sv.transforms[i]).1 matches
                STData::Constant(c) ==> rt[i].1 == constant_descriptor(c)) by {}
                assert(assembled_from(gv, rt, sv.edges, sv.outputs));
            }
        }
        r
    }
}

/// Serialization round trip.
///
/// For any well-formed graph, the exported portable form passes every
/// loading check, and any graph the loader builds from it with the
/// graph's own descriptors is structurally equal to the original:
/// same nodes with the same descriptors and default overrides, same
/// edges, same sink attachments.  The descriptors resolve to the
/// originals whenever the registry is stable and constant nodes carry
/// the canonical constant descriptor.
pub proof fn lemma_export_import_round_trip(g: DST, rt: Seq<ResolvedData>)
    requires
        g.wf(),
        rt.len() == g.t_seq().len(),
        forall|i: int|
            0 <= i < rt.len() ==> (#[trigger] rt[i]).0 == g.t_seq()[i].0 && rt[i].1 == g.t_seq()[
                i].1.data().t && rt[i].2 == g.t_seq()[i].1.data().input_defaults,
    ensures
        serial_ok(rt, g.e_seq(), g.o_seq()),
        forall|g2: DST| assembled_from(g2, rt, g.e_seq(), g.o_seq()) ==> g2.structurally_equal(g),
{
    DST::lemma_table_ports(g, rt);
    assert(serial_ok_transforms(rt)) by {
        assert forall|i: int| 0 <= i < rt.len() implies (#[trigger] rt[i]).1.valid() && rt[i].2.len()
            == rt[i].1.input.len() by {
            assert(g.t_seq()[i].1.data().wf());
        }
        assert forall|i: int, j: int|
            0 <= i < rt.len() && 0 <= j < rt[i].2.len() implies ((#[trigger] rt[i].2[j]) matches Some(
            d,
        ) ==> d.tag() == rt[i].1.input[j].0) by {
            assert(g.t_seq()[i].1.data().wf());
        }
        assert forall|i: int| 0 <= i < rt.len() implies (#[trigger] rt[i]).0.0 < usize::MAX by {
            assert(g.t_seq()[i].0.0 < g.next_t());
        }
    }
    assert(serial_ok_edges(rt, g.e_seq())) by {
        g.lemma_dep_rel_is_edges();
        assert forall|k: int| 0 <= k < g.e_seq().len() implies rt_valid_output(
            rt,
            (#[trigger] g.e_seq()[k]).0,
        ) && rt_valid_input(rt, g.e_seq()[k].1) && rt_output_type(rt, g.e_seq()[k].0)
            == rt_input_type(rt, g.e_seq()[k].1) by {
            assert(g.valid_output(g.e_seq()[k].0));
            assert(g.valid_input(g.e_seq()[k].1));
        }
    }
    assert(serial_ok_outputs(rt, g.o_seq())) by {
        assert forall|i: int| 0 <= i < g.o_seq().len() implies (#[trigger] g.o_seq()[i]).0.0
            < usize::MAX by {
            assert(g.o_seq()[i].0.0 < g.next_o());
        }
        assert forall|k: int| 0 <= k < g.o_seq().len() implies ((
        #[trigger] g.o_seq()[k]).1 matches Some(o) ==> rt_valid_output(rt, o)) by {
            if g.o_seq()[k].1 is Some {
                let o = g.o_seq()[k].1->Some_0;
                assert(g.valid_output(o));
            }
        }
    }
    assert forall|g2: DST| assembled_from(g2, rt, g.e_seq(), g.o_seq()) implies
        g2.structurally_equal(g) by {
        assert forall|i: int|
            0 <= i < g.t_seq().len() implies (#[trigger] g2.t_seq()[i]).0 == (
        #[trigger] g.t_seq()[i]).0 && g2.t_seq()[i].1.data().t == g.t_seq()[i].1.data().t
            && g2.t_seq()[i].1.data().input_defaults == g.t_seq()[i].1.data().input_defaults by {
            assert(g2.t_seq()[i].0 == rt[i].0);
        }
    }
}

} // verus!
