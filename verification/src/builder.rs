//! Mutating operations on the graph: add and remove transforms,
//! connect and disconnect edges, manage output nodes, override default
//! inputs and constants.
//!
//! Every operation preserves well-formedness; an operation that can be
//! refused checks atomically and leaves the graph unchanged on
//! rejection.  Any mutation that changes how a node's outputs are
//! computed clears the caches of that node and of every node reachable
//! forward from it.

use vstd::prelude::*;

use crate::dst::edge_lt;
use crate::dst::DSTError;
use crate::dst::Input;
use crate::dst::MetaTransform;
use crate::dst::Output;
use crate::dst::OutputId;
use crate::dst::TransformIdx;
use crate::dst::DST;
use crate::graph;
use crate::transform::Algorithm;
use crate::transform::TransData;
use crate::transform::Transformation;
use crate::value::IOType;
use crate::value::IOValue;
use crate::value::TypeContent;

verus! {

impl DST {
    /// Two graphs with the same transform table keys locate every node
    /// at the same position.
    pub(crate) proof fn lemma_same_keys(a: DST, b: DST)
        requires
            a.wf(),
            b.t_seq().len() == a.t_seq().len(),
            forall|i: int|
                0 <= i < a.t_seq().len() ==> (#[trigger] b.t_seq()[i]).0 == (
                #[trigger] a.t_seq()[i]).0,
        ensures
            forall|t: int| a.has_t(t) <==> b.has_t(t),
            forall|t: int| a.has_t(t) ==> b.t_index(t) == a.t_index(t),
    {
        assert forall|t: int| a.has_t(t) implies b.has_t(t) && b.t_index(t) == a.t_index(t) by {
            let i = a.t_index(t);
            assert(0 <= i < a.t_seq().len() && a.t_seq()[i].0.0 == t);
            assert(b.t_seq()[i].0.0 == t);
            assert(b.has_t(t));
            let j = b.t_index(t);
            assert(0 <= j < b.t_seq().len() && b.t_seq()[j].0.0 == t);
            if i != j {
                assert(a.t_seq()[j].0.0 == t);
                if i < j {
                    assert(a.t_seq()[i].0.0 < a.t_seq()[j].0.0);
                } else {
                    assert(a.t_seq()[j].0.0 < a.t_seq()[i].0.0);
                }
            }
        }
        assert forall|t: int| b.has_t(t) implies a.has_t(t) by {
            let i = b.t_index(t);
            assert(a.t_seq()[i].0.0 == t);
        }
    }

    /// Graphs with equal edge lists induce the same dependency
    /// relation.
    pub(crate) proof fn lemma_dep_rel_eq(a: DST, b: DST)
        requires
            a.e_seq() == b.e_seq(),
        ensures
            a.dep_rel() == b.dep_rel(),
    {
        assert(a.dep_rel() =~= b.dep_rel());
    }

    /// In a well-formed graph, both endpoints of every dependency pair
    /// are present nodes.
    pub(crate) proof fn lemma_dep_endpoints(self)
        requires
            self.wf(),
        ensures
            forall|x: int, y: int|
                #[trigger] self.dep_rel().contains((x, y)) ==> self.has_t(x) && self.has_t(y),
    {
        assert forall|x: int, y: int| #[trigger] self.dep_rel().contains((x, y)) implies self.has_t(
            x,
        ) && self.has_t(y) by {
            assert(self.dep(x, y));
            let k = choose|k: int|
                0 <= k < self.e_seq().len() && (#[trigger] self.e_seq()[k]).0.t_idx.0 == x
                    && self.e_seq()[k].1.t_idx.0 == y;
            assert(self.valid_output(self.e_seq()[k].0));
            assert(self.valid_input(self.e_seq()[k].1));
        }
    }

    /// Mint a fresh index and install a node for the descriptor, with
    /// per-instance defaults copied from the declared ones and every
    /// cache slot empty.
    pub fn add_owned_transform(&mut self, t: Transformation) -> (r: TransformIdx)
        requires
            old(self).wf(),
            t@.valid(),
            old(self).next_t() < usize::MAX,
        ensures
            final(self).wf(),
            r.0 == old(self).next_t(),
            !old(self).has_t(r.0 as int),
            final(self).has_t(r.0 as int),
            final(self).next_t() == old(self).next_t() + 1,
            final(self).next_o() == old(self).next_o(),
            final(self).e_seq() == old(self).e_seq(),
            final(self).o_seq() == old(self).o_seq(),
            final(self).t_seq().len() == old(self).t_seq().len() + 1,
            forall|i: int|
                0 <= i < old(self).t_seq().len() ==> final(self).t_seq()[i] == old(self).t_seq()[i],
            final(self).meta_data(r.0 as int).t == t@,
            final(self).meta_data(r.0 as int).input_defaults.len() == t@.input.len(),
            forall|i: int|
                0 <= i < t@.input.len() ==> final(self).meta_data(r.0 as int).input_defaults[i]
                    == t@.input[i].1,
            forall|i: int|
                0 <= i < t@.output.len() ==> final(self).meta_data(r.0 as int).cache[i] is None,
    {
        let idx = TransformIdx(self.next_t_idx);
        let ghost tv = t@;
        let meta = MetaTransform::new(t);
        self.transforms.push((idx, meta));
        self.next_t_idx = self.next_t_idx + 1;
        proof {
            let new = *self;
            let prev = *old(self);
            assert(new.t_seq() == prev.t_seq().push((idx, meta)));
            // sortedness and bounds
            assert forall|i: int, j: int|
                0 <= i < j < new.t_seq().len() implies (#[trigger] new.t_seq()[i]).0.0 < (
            #[trigger] new.t_seq()[j]).0.0 by {
                if j < new.t_seq().len() - 1 {
                    assert(prev.t_seq()[i].0.0 < prev.t_seq()[j].0.0);
                } else {
                    assert(new.t_seq()[j].0.0 == prev.next_t());
                    assert(prev.t_seq()[i].0.0 < prev.next_t());
                }
            }
            // the fresh key was absent
            assert(!prev.has_t(idx.0 as int));
            // position lookups
            assert(new.t_seq()[new.t_seq().len() - 1].0.0 == idx.0);
            assert(new.has_t(idx.0 as int));
            new.lemma_t_index_unique(new.t_seq().len() - 1);
            assert(new.meta_data(idx.0 as int) == meta.data());
            assert forall|t0: int| prev.has_t(t0) implies new.has_t(t0) && new.meta_data(t0)
                == prev.meta_data(t0) by {
                let i = prev.t_index(t0);
                assert(new.t_seq()[i].0.0 == t0);
                new.lemma_t_index_unique(i);
                assert(new.t_seq()[i] == prev.t_seq()[i]);
            }
            // well-formedness of the extended graph
            DST::lemma_dep_rel_eq(prev, new);
            assert forall|k: int| 0 <= k < new.e_seq().len() implies new.valid_output(
                (#[trigger] new.e_seq()[k]).0,
            ) && new.valid_input(new.e_seq()[k].1) && new.output_type_of(new.e_seq()[k].0)
                == new.input_type_of(new.e_seq()[k].1) by {
                assert(prev.valid_output(prev.e_seq()[k].0));
                assert(prev.valid_input(prev.e_seq()[k].1));
            }
            assert forall|k: int| 0 <= k < new.o_seq().len() implies ((
            #[trigger] new.o_seq()[k]).1 matches Some(o) ==> new.valid_output(o)) by {
                if new.o_seq()[k].1 is Some {
                    let o = new.o_seq()[k].1->Some_0;
                    assert(prev.valid_output(o));
                }
            }
            assert(new.wf());
        }
        idx
    }

    /// Mint a fresh index for a borrowed descriptor, copying it.
    pub fn add_transform(&mut self, t: &Transformation) -> (r: TransformIdx)
        requires
            old(self).wf(),
            t@.valid(),
            old(self).next_t() < usize::MAX,
        ensures
            final(self).wf(),
            r.0 == old(self).next_t(),
            !old(self).has_t(r.0 as int),
            final(self).has_t(r.0 as int),
            final(self).next_t() == old(self).next_t() + 1,
            final(self).next_o() == old(self).next_o(),
            final(self).e_seq() == old(self).e_seq(),
            final(self).o_seq() == old(self).o_seq(),
            final(self).t_seq().len() == old(self).t_seq().len() + 1,
            forall|i: int|
                0 <= i < old(self).t_seq().len() ==> final(self).t_seq()[i] == old(self).t_seq()[i],
            final(self).meta_data(r.0 as int).t == t@,
            final(self).meta_data(r.0 as int).input_defaults.len() == t@.input.len(),
            forall|i: int|
                0 <= i < t@.input.len() ==> final(self).meta_data(r.0 as int).input_defaults[i]
                    == t@.input[i].1,
            forall|i: int|
                0 <= i < t@.output.len() ==> final(self).meta_data(r.0 as int).cache[i] is None,
    {
        self.add_owned_transform(t.duplicate())
    }

    /// Mint a detached output node.
    pub fn create_output(&mut self) -> (r: OutputId)
        requires
            old(self).wf(),
            old(self).next_o() < usize::MAX,
        ensures
            final(self).wf(),
            r.0 == old(self).next_o(),
            !old(self).has_oid(r.0 as int),
            final(self).has_oid(r.0 as int),
            final(self).sink(r.0 as int) is None,
            final(self).next_o() == old(self).next_o() + 1,
            final(self).next_t() == old(self).next_t(),
            final(self).t_seq() == old(self).t_seq(),
            final(self).e_seq() == old(self).e_seq(),
            final(self).o_seq().len() == old(self).o_seq().len() + 1,
            forall|i: int|
                0 <= i < old(self).o_seq().len() ==> final(self).o_seq()[i] == old(self).o_seq()[i],
    {
        let id = OutputId(self.next_output_id);
        self.outputs.push((id, None));
        self.next_output_id = self.next_output_id + 1;
        proof {
            let new = *self;
            let prev = *old(self);
            assert(new.o_seq() == prev.o_seq().push((id, None)));
            assert forall|i: int, j: int|
                0 <= i < j < new.o_seq().len() implies (#[trigger] new.o_seq()[i]).0.0 < (
            #[trigger] new.o_seq()[j]).0.0 by {
                if j < new.o_seq().len() - 1 {
                    assert(prev.o_seq()[i].0.0 < prev.o_seq()[j].0.0);
                } else {
                    assert(prev.o_seq()[i].0.0 < prev.next_o());
                }
            }
            assert(!prev.has_oid(id.0 as int));
            assert(new.o_seq()[new.o_seq().len() - 1].0.0 == id.0);
            assert(new.has_oid(id.0 as int));
            new.lemma_oid_index_unique(new.o_seq().len() - 1);
            DST::lemma_dep_rel_eq(prev, new);
            assert forall|k: int| 0 <= k < new.o_seq().len() implies ((
            #[trigger] new.o_seq()[k]).1 matches Some(o) ==> new.valid_output(o)) by {
                if k < new.o_seq().len() - 1 && new.o_seq()[k].1 is Some {
                    let o = new.o_seq()[k].1->Some_0;
                    assert(prev.valid_output(o));
                }
            }
            assert(new.wf());
        }
        id
    }

    /// Whether the output port exists in the graph.
    pub fn check_output(&self, o: Output) -> (r: bool)
        requires
            self.wf(),
        ensures
            r == self.valid_output(o),
    {
        match self.find_transform(o.t_idx) {
            None => false,
            Some(i) => {
                proof {
                    self.lemma_t_index_unique(i as int);
                }
                o.index() < self.transforms[i].1.transform().output.len()
            },
        }
    }

    /// Whether the input port exists in the graph.
    pub fn check_input(&self, i: Input) -> (r: bool)
        requires
            self.wf(),
        ensures
            r == self.valid_input(i),
    {
        match self.find_transform(i.t_idx) {
            None => false,
            Some(k) => {
                proof {
                    self.lemma_t_index_unique(k as int);
                }
                i.index() < self.transforms[k].1.transform().input.len()
            },
        }
    }

    /// Attach an output node to a producer port.  `MissingOutputID`
    /// when the node is unknown, `InvalidOutput` when the port does
    /// not exist; either way the graph is unchanged.
    pub fn attach_output(&mut self, output_id: OutputId, output: Output) -> (r: Result<
        (),
        DSTError,
    >)
        requires
            old(self).wf(),
        ensures
            final(self).wf(),
            !old(self).has_oid(output_id.0 as int) ==> (r matches Err(e) && e is MissingOutputID
                && *final(self) == *old(self)),
            old(self).has_oid(output_id.0 as int) && !old(self).valid_output(output) ==> (
            r matches Err(e) && e is InvalidOutput && *final(self) == *old(self)),
            old(self).has_oid(output_id.0 as int) && old(self).valid_output(output) ==> r
                == Ok::<(), DSTError>(()) && {
                &&& final(self).t_seq() == old(self).t_seq()
                &&& final(self).e_seq() == old(self).e_seq()
                &&& final(self).next_t() == old(self).next_t()
                &&& final(self).next_o() == old(self).next_o()
                &&& final(self).o_seq().len() == old(self).o_seq().len()
                &&& forall|i: int|
                    0 <= i < old(self).o_seq().len() && i != old(self).oid_index(
                        output_id.0 as int,
                    ) ==> final(self).o_seq()[i] == old(self).o_seq()[i]
                &&& final(self).o_seq()[old(self).oid_index(output_id.0 as int)] == (
                output_id,
                Some(output),
                )
                &&& final(self).sink(output_id.0 as int) == Some(output)
            },
    {
        let i = match self.find_output_id(output_id) {
            None => {
                return Err(DSTError::MissingOutputID("output node not found".to_owned()));
            },
            Some(i) => i,
        };
        proof {
            self.lemma_oid_index_unique(i as int);
        }
        if !self.check_output(output) {
            return Err(DSTError::InvalidOutput("output port does not exist".to_owned()));
        }
        self.outputs.set(i, (output_id, Some(output)));
        proof {
            let new = *self;
            let prev = *old(self);
            assert(new.o_seq() == prev.o_seq().update(i as int, (output_id, Some(output))));
            assert forall|a: int, b: int|
                0 <= a < b < new.o_seq().len() implies (#[trigger] new.o_seq()[a]).0.0 < (
            #[trigger] new.o_seq()[b]).0.0 by {
                assert(new.o_seq()[a].0 == prev.o_seq()[a].0);
                assert(new.o_seq()[b].0 == prev.o_seq()[b].0);
            }
            DST::lemma_dep_rel_eq(prev, new);
            assert forall|k: int| 0 <= k < new.o_seq().len() implies ((
            #[trigger] new.o_seq()[k]).1 matches Some(o) ==> new.valid_output(o)) by {
                if k != i as int && new.o_seq()[k].1 is Some {
                    let o = new.o_seq()[k].1->Some_0;
                    assert(prev.valid_output(o));
                }
            }
            assert(new.wf());
            new.lemma_oid_index_unique(i as int);
        }
        Ok(())
    }

    /// Atomically detach an output node and attach it to another
    /// producer port.
    pub fn update_output(&mut self, output_id: OutputId, output: Output) -> (r: Result<
        (),
        DSTError,
    >)
        requires
            old(self).wf(),
        ensures
            final(self).wf(),
            !old(self).has_oid(output_id.0 as int) ==> (r matches Err(e) && e is MissingOutputID
                && *final(self) == *old(self)),
            old(self).has_oid(output_id.0 as int) && !old(self).valid_output(output) ==> (
            r matches Err(e) && e is InvalidOutput && *final(self) == *old(self)),
            old(self).has_oid(output_id.0 as int) && old(self).valid_output(output) ==> r
                == Ok::<(), DSTError>(()) && {
                &&& final(self).t_seq() == old(self).t_seq()
                &&& final(self).e_seq() == old(self).e_seq()
                &&& final(self).next_t() == old(self).next_t()
                &&& final(self).next_o() == old(self).next_o()
                &&& final(self).o_seq().len() == old(self).o_seq().len()
                &&& forall|i: int|
                    0 <= i < old(self).o_seq().len() && i != old(self).oid_index(
                        output_id.0 as int,
                    ) ==> final(self).o_seq()[i] == old(self).o_seq()[i]
                &&& final(self).o_seq()[old(self).oid_index(output_id.0 as int)] == (
                output_id,
                Some(output),
                )
                &&& final(self).sink(output_id.0 as int) == Some(output)
            },
    {
        self.attach_output(output_id, output)
    }

    /// Remove an output node.  Unknown ids are ignored.
    pub fn remove_output(&mut self, output_id: OutputId)
        requires
            old(self).wf(),
        ensures
            final(self).wf(),
            !old(self).has_oid(output_id.0 as int) ==> *final(self) == *old(self),
            old(self).has_oid(output_id.0 as int) ==> {
                &&& final(self).t_seq() == old(self).t_seq()
                &&& final(self).e_seq() == old(self).e_seq()
                &&& final(self).next_t() == old(self).next_t()
                &&& final(self).next_o() == old(self).next_o()
                &&& final(self).o_seq() == old(self).o_seq().remove(
                    old(self).oid_index(output_id.0 as int),
                )
                &&& !final(self).has_oid(output_id.0 as int)
            },
    {
        let i = match self.find_output_id(output_id) {
            None => {
                return ;
            },
            Some(i) => i,
        };
        proof {
            self.lemma_oid_index_unique(i as int);
        }
        self.outputs.remove(i);
        proof {
            let new = *self;
            let prev = *old(self);
            assert(new.o_seq() == prev.o_seq().remove(i as int));
            assert forall|a: int, b: int|
                0 <= a < b < new.o_seq().len() implies (#[trigger] new.o_seq()[a]).0.0 < (
            #[trigger] new.o_seq()[b]).0.0 by {
                let pa = if a < i as int {
                    a
                } else {
                    a + 1
                };
                let pb = if b < i as int {
                    b
                } else {
                    b + 1
                };
                assert(new.o_seq()[a] == prev.o_seq()[pa]);
                assert(new.o_seq()[b] == prev.o_seq()[pb]);
            }
            DST::lemma_dep_rel_eq(prev, new);
            assert forall|k: int| 0 <= k < new.o_seq().len() implies ((
            #[trigger] new.o_seq()[k]).1 matches Some(o) ==> new.valid_output(o)) by {
                let pk = if k < i as int {
                    k
                } else {
                    k + 1
                };
                assert(new.o_seq()[k] == prev.o_seq()[pk]);
                if new.o_seq()[k].1 is Some {
                    let o = new.o_seq()[k].1->Some_0;
                    assert(prev.valid_output(o));
                }
            }
            assert(new.wf());
            if new.has_oid(output_id.0 as int) {
                let j = new.oid_index(output_id.0 as int);
                let pj = if j < i as int {
                    j
                } else {
                    j + 1
                };
                assert(new.o_seq()[j] == prev.o_seq()[pj]);
                prev.lemma_oid_index_unique(pj);
                assert(false);
            }
        }
    }
}


/// Whether the sequence holds a node with numeric id `x`.
pub open(crate) spec fn has_id(s: Seq<TransformIdx>, x: int) -> bool {
    exists|k: int| 0 <= k < s.len() && (#[trigger] s[k]).0 == x
}

/// Whether the vector holds the given node id.
pub(crate) fn contains_id(v: &Vec<TransformIdx>, t: TransformIdx) -> (r: bool)
    ensures
        r == has_id(v@, t.0 as int),
{
    let mut i: usize = 0;
    while i < v.len()
        invariant
            i <= v.len(),
            forall|k: int| 0 <= k < i ==> (#[trigger] v@[k]).0 != t.0,
        decreases v.len() - i,
    {
        if v[i].id() == t.id() {
            return true;
        }
        i += 1;
    }
    false
}

/// Pushing onto a sequence keeps every id it already holds.
pub(crate) proof fn lemma_has_id_push(s: Seq<TransformIdx>, t: TransformIdx, x: int)
    requires
        has_id(s, x),
    ensures
        has_id(s.push(t), x),
{
    let k = choose|k: int| 0 <= k < s.len() && (#[trigger] s[k]).0 == x;
    assert(s.push(t)[k].0 == x);
}

impl DST {
    /// A sequence of distinct present node ids is no longer than the
    /// transform table.
    pub(crate) proof fn lemma_distinct_ids_bound(self, s: Seq<TransformIdx>)
        requires
            forall|i: int, j: int| 0 <= i < j < s.len() ==> (#[trigger] s[i]).0 != (#[trigger] s[j]).0,
            forall|i: int| 0 <= i < s.len() ==> self.has_t((#[trigger] s[i]).0 as int),
        ensures
            s.len() <= self.t_seq().len(),
    {
        broadcast use vstd::seq_lib::group_seq_lib_default;

        let ids = s.map_values(|t: TransformIdx| t.0 as int);
        assert(ids.no_duplicates()) by {
            assert forall|i: int, j: int| 0 <= i < ids.len() && 0 <= j < ids.len() && i != j
                implies ids[i] != ids[j] by {
                if i < j {
                    assert(s[i].0 != s[j].0);
                } else {
                    assert(s[j].0 != s[i].0);
                }
            }
        }
        ids.unique_seq_to_set();
        assert(ids.to_set().subset_of(self.tkey_set())) by {
            assert forall|x: int| ids.to_set().contains(x) implies self.tkey_set().contains(x) by {
                let k = choose|k: int| 0 <= k < ids.len() && ids[k] == x;
                assert(self.has_t(x));
                let i = self.t_index(x);
                assert(self.tkey_seq()[i] == x);
                assert(self.tkey_seq().contains(x));
            }
        }
        self.tkey_seq().lemma_cardinality_of_set();
        vstd::set_lib::lemma_len_subset(ids.to_set(), self.tkey_set());
    }

    /// Every id of the transform table is in the key set.
    pub(crate) proof fn lemma_tkey_set_contains(self, x: int)
        requires
            self.has_t(x),
        ensures
            self.tkey_set().contains(x),
    {
        let i = self.t_index(x);
        assert(self.tkey_seq()[i] == x);
        assert(self.tkey_seq().contains(x));
    }

    /// The nodes reachable forward from `start`, each exactly once.
    pub(crate) fn reach_list(&self, start: TransformIdx) -> (r: Vec<TransformIdx>)
        requires
            self.wf(),
            self.has_t(start.0 as int),
        ensures
            forall|k: int|
                0 <= k < r@.len() ==> graph::reach(
                    self.dep_rel(),
                    start.0 as int,
                    (#[trigger] r@[k]).0 as int,
                ) && self.has_t(r@[k].0 as int),
            forall|x: int| graph::reach(self.dep_rel(), start.0 as int, x) ==> has_id(r@, x),
    {
        let mut visited: Vec<TransformIdx> = Vec::new();
        let mut stack: Vec<TransformIdx> = Vec::new();
        visited.push(start);
        stack.push(start);
        proof {
            assert(graph::reach_n(self.dep_rel(), start.0 as int, start.0 as int, 0));
            assert(graph::reach(self.dep_rel(), start.0 as int, start.0 as int));
            self.lemma_distinct_ids_bound(visited@);
        }
        while stack.len() > 0
            invariant
                self.wf(),
                self.has_t(start.0 as int),
                visited@.len() >= 1,
                visited@[0] == start,
                visited@.len() <= self.t_seq().len(),
                forall|i: int, j: int|
                    0 <= i < j < visited@.len() ==> (#[trigger] visited@[i]).0 != (
                    #[trigger] visited@[j]).0,
                forall|i: int| 0 <= i < visited@.len() ==> self.has_t((#[trigger] visited@[i]).0 as int),
                forall|i: int|
                    0 <= i < visited@.len() ==> graph::reach(
                        self.dep_rel(),
                        start.0 as int,
                        (#[trigger] visited@[i]).0 as int,
                    ),
                forall|i: int| 0 <= i < stack@.len() ==> has_id(visited@, (#[trigger] stack@[i]).0 as int),
                forall|v: int, y: int|
                    has_id(visited@, v) && !has_id(stack@, v) && #[trigger] self.dep_rel().contains(
                        (v, y),
                    ) ==> has_id(visited@, y),
            decreases self.t_seq().len() - visited@.len(), stack@.len(),
        {
            let ghost pre_visited = visited@;
            let ghost pre_stack = stack@;
            let x = stack.pop().unwrap();
            proof {
                assert(pre_stack[pre_stack.len() - 1] == x);
                assert(has_id(pre_visited, x.0 as int));
                assert forall|v: int| !has_id(stack@, v) && v != x.0 as int implies !has_id(
                    pre_stack,
                    v,
                ) by {
                    if has_id(pre_stack, v) {
                        let k = choose|k: int|
                            0 <= k < pre_stack.len() && (#[trigger] pre_stack[k]).0 == v;
                        if k < pre_stack.len() - 1 {
                            assert(stack@[k].0 == v);
                        }
                    }
                }
            }
            let mut k: usize = 0;
            while k < self.edges.len()
                invariant
                    self.wf(),
                    self.has_t(start.0 as int),
                    k <= self.e_seq().len(),
                    visited@.len() >= 1,
                    visited@[0] == start,
                    visited@.len() <= self.t_seq().len(),
                    visited@.len() >= pre_visited.len(),
                    pre_visited == visited@.subrange(0, pre_visited.len() as int),
                    stack@.len() + pre_visited.len() == pre_stack.len() - 1 + visited@.len(),
                    has_id(visited@, x.0 as int),
                    graph::reach(self.dep_rel(), start.0 as int, x.0 as int),
                    forall|i: int, j: int|
                        0 <= i < j < visited@.len() ==> (#[trigger] visited@[i]).0 != (
                        #[trigger] visited@[j]).0,
                    forall|i: int|
                        0 <= i < visited@.len() ==> self.has_t((#[trigger] visited@[i]).0 as int),
                    forall|i: int|
                        0 <= i < visited@.len() ==> graph::reach(
                            self.dep_rel(),
                            start.0 as int,
                            (#[trigger] visited@[i]).0 as int,
                        ),
                    forall|i: int|
                        0 <= i < stack@.len() ==> has_id(visited@, (#[trigger] stack@[i]).0 as int),
                    forall|v: int, y: int|
                        has_id(visited@, v) && !has_id(stack@, v) && v != x.0 as int
                            && #[trigger] self.dep_rel().contains((v, y)) ==> has_id(visited@, y),
                    forall|j: int|
                        0 <= j < k && (#[trigger] self.e_seq()[j]).0.t_idx.0 == x.0 ==> has_id(
                            visited@,
                            self.e_seq()[j].1.t_idx.0 as int,
                        ),
                decreases self.e_seq().len() - k,
            {
                let ghost vis_at_start = visited@;
                let ghost stk_at_start = stack@;
                let e_producer = self.edges[k].0;
                if e_producer.t_idx.id() == x.id() {
                    let c = self.edges[k].1.t_idx;
                    if !contains_id(&visited, c) {
                        proof {
                            assert(self.dep(x.0 as int, c.0 as int)) by {
                                assert(self.e_seq()[k as int].0.t_idx.0 == x.0
                                    && self.e_seq()[k as int].1.t_idx.0 == c.0);
                            }
                            assert(self.dep_rel().contains((x.0 as int, c.0 as int)));
                            assert(self.valid_input(self.e_seq()[k as int].1));
                            graph::lemma_reach_step(
                                self.dep_rel(),
                                start.0 as int,
                                x.0 as int,
                                c.0 as int,
                            );
                        }
                        let ghost vis_before = visited@;
                        let ghost stk_before = stack@;
                        visited.push(c);
                        stack.push(c);
                        proof {
                            self.lemma_distinct_ids_bound(visited@);
                            assert(vis_before == visited@.subrange(0, vis_before.len() as int));
                            assert forall|v: int| has_id(vis_before, v) implies has_id(
                                visited@,
                                v,
                            ) by {
                                lemma_has_id_push(vis_before, c, v);
                            }
                            assert forall|i: int|
                                0 <= i < stack@.len() implies has_id(
                                visited@,
                                (#[trigger] stack@[i]).0 as int,
                            ) by {
                                if i < stack@.len() - 1 {
                                    assert(stack@[i] == stk_before[i]);
                                    lemma_has_id_push(vis_before, c, stk_before[i].0 as int);
                                } else {
                                    assert(visited@[visited@.len() - 1].0 == c.0);
                                }
                            }
                            assert(pre_visited == visited@.subrange(0, pre_visited.len() as int));
                            assert(visited@[visited@.len() - 1].0 == c.0);
                            assert(has_id(visited@, c.0 as int));
                        }
                    } else {
                        proof {
                            assert(has_id(visited@, c.0 as int));
                        }
                    }
                    proof {
                        assert(has_id(visited@, self.e_seq()[k as int].1.t_idx.0 as int));
                    }
                }
                proof {
                    assert forall|v: int| has_id(vis_at_start, v) implies has_id(visited@, v) by {
                        if visited@.len() > vis_at_start.len() {
                            lemma_has_id_push(vis_at_start, visited@[visited@.len() - 1], v);
                        }
                    }
                    assert forall|v: int| has_id(stk_at_start, v) implies has_id(stack@, v) by {
                        if stack@.len() > stk_at_start.len() {
                            lemma_has_id_push(stk_at_start, stack@[stack@.len() - 1], v);
                        }
                    }
                    assert forall|v: int, y: int|
                        has_id(visited@, v) && !has_id(stack@, v) && v != x.0 as int
                            && #[trigger] self.dep_rel().contains((v, y)) implies has_id(
                        visited@,
                        y,
                    ) by {
                        if has_id(vis_at_start, v) {
                            assert(!has_id(stk_at_start, v));
                            assert(has_id(vis_at_start, y));
                        } else {
                            // v was pushed this iteration, so it is on the stack
                            let j = choose|j: int|
                                0 <= j < visited@.len() && (#[trigger] visited@[j]).0 == v;
                            assert(j == visited@.len() - 1);
                            assert(stack@[stack@.len() - 1].0 == v);
                            assert(false);
                        }
                    }
                    assert forall|j: int|
                        0 <= j < k + 1 && (#[trigger] self.e_seq()[j]).0.t_idx.0 == x.0 implies
                        has_id(visited@, self.e_seq()[j].1.t_idx.0 as int) by {
                        if j < k {
                            assert(has_id(vis_at_start, self.e_seq()[j].1.t_idx.0 as int));
                        }
                    }
                }
                k += 1;
            }
        }
        proof {
            let vs = Set::new(|v: int| has_id(visited@, v));
            assert forall|x: int|
                graph::reach(self.dep_rel(), start.0 as int, x) implies has_id(visited@, x) by {
                let n = choose|n: nat| graph::reach_n(self.dep_rel(), start.0 as int, x, n);
                assert(vs.contains(start.0 as int)) by {
                    assert(visited@[0] == start);
                }
                assert(forall|v: int, y: int|
                    vs.contains(v) && #[trigger] self.dep_rel().contains((v, y)) ==> vs.contains(
                        y,
                    ));
                graph::lemma_closed_contains(self.dep_rel(), vs, start.0 as int, x, n);
            }
        }
        visited
    }

    /// Well-formedness carries over to a graph that differs only in
    /// cache contents, and ports keep their validity and position.
    pub(crate) proof fn lemma_wf_cache_change(a: DST, b: DST)
        requires
            a.wf(),
            b.t_seq().len() == a.t_seq().len(),
            forall|i: int|
                0 <= i < a.t_seq().len() ==> (#[trigger] b.t_seq()[i]).0 == (
                #[trigger] a.t_seq()[i]).0 && b.t_seq()[i].1.data().t == a.t_seq()[i].1.data().t
                    && b.t_seq()[i].1.data().input_defaults
                    == a.t_seq()[i].1.data().input_defaults && b.t_seq()[i].1.data().cache.len()
                    == a.t_seq()[i].1.data().cache.len(),
            b.e_seq() == a.e_seq(),
            b.o_seq() == a.o_seq(),
            b.next_t() == a.next_t(),
            b.next_o() == a.next_o(),
        ensures
            b.wf(),
            forall|t: int| a.has_t(t) <==> b.has_t(t),
            forall|t: int| a.has_t(t) ==> b.t_index(t) == a.t_index(t),
            forall|t: int|
                a.has_t(t) ==> b.meta_data(t).t == a.meta_data(t).t && b.meta_data(
                    t,
                ).input_defaults == a.meta_data(t).input_defaults,
            forall|o: Output| a.valid_output(o) <==> b.valid_output(o),
            forall|i: Input| a.valid_input(i) <==> b.valid_input(i),
            b.dep_rel() == a.dep_rel(),
    {
        DST::lemma_same_keys(a, b);
        assert forall|t: int| b.has_t(t) implies a.has_t(t) by {
            let i = b.t_index(t);
            assert(a.t_seq()[i].0.0 == t);
        }
        assert forall|t: int| a.has_t(t) implies b.meta_data(t).t == a.meta_data(t).t
            && b.meta_data(t).input_defaults == a.meta_data(t).input_defaults && b.meta_data(
            t,
        ).cache.len() == a.meta_data(t).cache.len() by {
            let i = a.t_index(t);
        }
        DST::lemma_dep_rel_eq(a, b);
        assert forall|o: Output| a.valid_output(o) == b.valid_output(o) by {
            if a.has_t(o.t_idx.0 as int) {
            }
        }
        assert forall|i: Input| a.valid_input(i) == b.valid_input(i) by {
            if a.has_t(i.t_idx.0 as int) {
            }
        }
        assert forall|i: int| 0 <= i < b.t_seq().len() implies (#[trigger] b.t_seq()[i]).1.data().wf() by {
            assert(a.t_seq()[i].1.data().wf());
        }
        assert forall|k: int| 0 <= k < b.e_seq().len() implies b.valid_output(
            (#[trigger] b.e_seq()[k]).0,
        ) && b.valid_input(b.e_seq()[k].1) && b.output_type_of(b.e_seq()[k].0) == b.input_type_of(
            b.e_seq()[k].1,
        ) by {
            assert(a.valid_output(a.e_seq()[k].0));
            assert(a.valid_input(a.e_seq()[k].1));
            let o = a.e_seq()[k].0;
            let inp = a.e_seq()[k].1;
            assert(b.meta_data(o.t_idx.0 as int).t == a.meta_data(o.t_idx.0 as int).t);
            assert(b.meta_data(inp.t_idx.0 as int).t == a.meta_data(inp.t_idx.0 as int).t);
        }
        assert forall|k: int| 0 <= k < b.o_seq().len() implies ((#[trigger] b.o_seq()[k]).1 matches Some(
            o,
        ) ==> b.valid_output(o)) by {
            if b.o_seq()[k].1 is Some {
                let o = b.o_seq()[k].1->Some_0;
                assert(a.valid_output(o));
            }
        }
        assert forall|i: int, j: int|
            0 <= i < j < b.t_seq().len() implies (#[trigger] b.t_seq()[i]).0.0 < (
        #[trigger] b.t_seq()[j]).0.0 by {
            assert(a.t_seq()[i].0.0 < a.t_seq()[j].0.0);
        }
        assert forall|i: int| 0 <= i < b.t_seq().len() implies (#[trigger] b.t_seq()[i]).0.0
            < b.next_t() by {
            assert(a.t_seq()[i].0.0 < a.next_t());
        }
    }

    /// Clear every cache slot of the node at table position `i`.
    fn clear_cache_at(&mut self, i: usize)
        requires
            i < old(self).t_seq().len(),
        ensures
            final(self).t_seq().len() == old(self).t_seq().len(),
            forall|j: int|
                0 <= j < old(self).t_seq().len() && j != i ==> final(self).t_seq()[j] == old(self).t_seq()[j],
            final(self).t_seq()[i as int].0 == old(self).t_seq()[i as int].0,
            final(self).t_seq()[i as int].1.data() == old(self).t_seq()[i as int].1.data().cleared(),
            final(self).e_seq() == old(self).e_seq(),
            final(self).o_seq() == old(self).o_seq(),
            final(self).next_t() == old(self).next_t(),
            final(self).next_o() == old(self).next_o(),
    {
        let (id, mut m) = self.transforms.remove(i);
        let n = m.cache.len();
        let mut fresh: Vec<Option<IOValue>> = Vec::new();
        while fresh.len() < n
            invariant
                fresh@.len() <= n,
                forall|k: int| 0 <= k < fresh@.len() ==> fresh@[k] is None,
            decreases n - fresh@.len(),
        {
            fresh.push(None);
        }
        proof {
            assert(fresh.deep_view() =~= Seq::new(n as nat, |k: int| None::<crate::value::ValueData>));
        }
        m.cache = fresh;
        self.transforms.insert(i, (id, m));
        proof {
            assert(self.transforms@ =~= old(self).transforms@.update(i as int, (id, m)));
            assert(m.data() == old(self).t_seq()[i as int].1.data().cleared());
        }
    }

    /// Clear the caches of `start` and of every node reachable forward
    /// from it.
    pub(crate) fn invalidate_cone(&mut self, start: TransformIdx)
        requires
            old(self).wf(),
            old(self).has_t(start.0 as int),
        ensures
            final(self).wf(),
            final(self).t_seq().len() == old(self).t_seq().len(),
            forall|i: int|
                0 <= i < old(self).t_seq().len() ==> (#[trigger] final(self).t_seq()[i]).0 == (
                #[trigger] old(self).t_seq()[i]).0 && final(self).t_seq()[i].1.data() == (
                if graph::reach(
                    old(self).dep_rel(),
                    start.0 as int,
                    old(self).t_seq()[i].0.0 as int,
                ) {
                    old(self).t_seq()[i].1.data().cleared()
                } else {
                    old(self).t_seq()[i].1.data()
                }),
            final(self).e_seq() == old(self).e_seq(),
            final(self).o_seq() == old(self).o_seq(),
            final(self).next_t() == old(self).next_t(),
            final(self).next_o() == old(self).next_o(),
    {
        let list = self.reach_list(start);
        let ghost prev = *old(self);
        let mut k: usize = 0;
        while k < list.len()
            invariant
                prev.wf(),
                list@.len() >= 0,
                k <= list@.len(),
                forall|j: int|
                    0 <= j < list@.len() ==> graph::reach(
                        prev.dep_rel(),
                        start.0 as int,
                        (#[trigger] list@[j]).0 as int,
                    ) && prev.has_t(list@[j].0 as int),
                forall|x: int| graph::reach(prev.dep_rel(), start.0 as int, x) ==> has_id(list@, x),
                self.t_seq().len() == prev.t_seq().len(),
                forall|i: int|
                    0 <= i < prev.t_seq().len() ==> (#[trigger] self.t_seq()[i]).0 == (
                    #[trigger] prev.t_seq()[i]).0 && self.t_seq()[i].1.data() == (
                    if has_id(list@.subrange(0, k as int), prev.t_seq()[i].0.0 as int) {
                        prev.t_seq()[i].1.data().cleared()
                    } else {
                        prev.t_seq()[i].1.data()
                    }),
                self.e_seq() == prev.e_seq(),
                self.o_seq() == prev.o_seq(),
                self.next_t() == prev.next_t(),
                self.next_o() == prev.next_o(),
            decreases list@.len() - k,
        {
            let t = list[k];
            proof {
                assert(prev.has_t(t.0 as int));
            }
            let i = match self.find_transform(t) {
                Some(i) => i,
                None => {
                    proof {
                        let pi = prev.t_index(t.0 as int);
                        assert(self.t_seq()[pi].0.0 == t.0);
                        assert(self.has_t(t.0 as int));
                    }
                    unreached()
                },
            };
            proof {
                let pi = prev.t_index(t.0 as int);
                assert(self.t_seq()[i as int].0.0 == t.0);
                assert(prev.t_seq()[i as int].0.0 == t.0);
                prev.lemma_t_index_unique(i as int);
                assert(pi == i as int);
            }
            let ghost before = self.t_seq();
            self.clear_cache_at(i);
            proof {
                assert forall|i2: int|
                    0 <= i2 < prev.t_seq().len() implies (#[trigger] self.t_seq()[i2]).0 == (
                    #[trigger] prev.t_seq()[i2]).0 && self.t_seq()[i2].1.data() == (
                    if has_id(list@.subrange(0, k as int + 1), prev.t_seq()[i2].0.0 as int) {
                        prev.t_seq()[i2].1.data().cleared()
                    } else {
                        prev.t_seq()[i2].1.data()
                    }) by {
                    let key = prev.t_seq()[i2].0.0 as int;
                    if i2 == i as int {
                        if has_id(list@.subrange(0, k as int), key) {
                            assert(before[i2].1.data() == prev.t_seq()[i2].1.data().cleared());
                            assert(self.t_seq()[i2].1.data() == before[i2].1.data().cleared());
                            assert(prev.t_seq()[i2].1.data().cleared().cleared()
                                =~~= prev.t_seq()[i2].1.data().cleared());
                        } else {
                            assert(self.t_seq()[i2].1.data() == prev.t_seq()[i2].1.data().cleared());
                        }
                        assert(list@.subrange(0, k as int + 1)[k as int] == t);
                        assert(has_id(list@.subrange(0, k as int + 1), key));
                    } else {
                        assert(self.t_seq()[i2] == before[i2]);
                        if has_id(list@.subrange(0, k as int), key) {
                            let j = choose|j: int|
                                0 <= j < k && (#[trigger] list@.subrange(0, k as int)[j]).0 == key;
                            assert(list@.subrange(0, k as int + 1)[j].0 == key);
                            assert(has_id(list@.subrange(0, k as int + 1), key));
                        } else if has_id(list@.subrange(0, k as int + 1), key) {
                            let j = choose|j: int|
                                0 <= j < k + 1 && (#[trigger] list@.subrange(0, k as int + 1)[j]).0
                                    == key;
                            if j < k {
                                assert(list@.subrange(0, k as int)[j].0 == key);
                                assert(false);
                            } else {
                                // the cleared node: its key is t.0, but i2 != i
                                assert(list@[k as int].0 == key);
                                assert(prev.t_seq()[i as int].0.0 as int == key);
                                prev.lemma_t_index_unique(i as int);
                                prev.lemma_t_index_unique(i2);
                                assert(false);
                            }
                        }
                    }
                }
            }
            k += 1;
        }
        proof {
            assert forall|i: int|
                0 <= i < prev.t_seq().len() implies (#[trigger] final(self).t_seq()[i]).1.data() == (
                if graph::reach(prev.dep_rel(), start.0 as int, prev.t_seq()[i].0.0 as int) {
                    prev.t_seq()[i].1.data().cleared()
                } else {
                    prev.t_seq()[i].1.data()
                }) by {
                let key = prev.t_seq()[i].0.0 as int;
                assert(list@.subrange(0, list@.len() as int) =~= list@);
                if graph::reach(prev.dep_rel(), start.0 as int, key) {
                    assert(has_id(list@, key));
                } else {
                    if has_id(list@, key) {
                        let j = choose|j: int| 0 <= j < list@.len() && (#[trigger] list@[j]).0 == key;
                        assert(graph::reach(prev.dep_rel(), start.0 as int, key));
                        assert(false);
                    }
                }
            }
            DST::lemma_wf_cache_change(prev, *self);
        }
    }
}


/// Exactly one of `a == b`, `a` before `b`, `b` before `a` holds.
pub(crate) proof fn lemma_edge_lt_total(a: (Output, Input), b: (Output, Input))
    ensures
        a == b || edge_lt(a, b) || edge_lt(b, a),
        !(edge_lt(a, b) && edge_lt(b, a)),
{
}

/// The edge order is transitive.
pub(crate) proof fn lemma_edge_lt_trans(a: (Output, Input), b: (Output, Input), c: (Output, Input))
    requires
        edge_lt(a, b),
        edge_lt(b, c),
    ensures
        edge_lt(a, c),
{
}

impl DST {
    /// The declared tag of an existing output port.
    pub fn port_output_type(&self, o: Output) -> (r: IOType)
        requires
            self.wf(),
            self.valid_output(o),
        ensures
            r == self.output_type_of(o),
    {
        let i = self.find_transform(o.t_idx).unwrap();
        proof {
            self.lemma_t_index_unique(i as int);
        }
        self.transforms[i].1.transform().nth_output_type(o.index())
    }

    /// The declared tag of an existing input port.
    pub fn port_input_type(&self, i: Input) -> (r: IOType)
        requires
            self.wf(),
            self.valid_input(i),
        ensures
            r == self.input_type_of(i),
    {
        let k = self.find_transform(i.t_idx).unwrap();
        proof {
            self.lemma_t_index_unique(k as int);
        }
        self.transforms[k].1.transform().nth_input_type(i.index())
    }

    /// The producer driving the given input, if any.
    pub fn find_driver(&self, input: Input) -> (r: Option<Output>)
        requires
            self.wf(),
        ensures
            r is None ==> !self.input_driven(input),
            r matches Some(o) ==> self.input_driven(input) && self.e_seq().contains((o, input)),
    {
        let mut k: usize = 0;
        while k < self.edges.len()
            invariant
                k <= self.e_seq().len(),
                forall|j: int| 0 <= j < k ==> (#[trigger] self.e_seq()[j]).1 != input,
            decreases self.e_seq().len() - k,
        {
            if self.edges[k].1 == input {
                return Some(self.edges[k].0);
            }
            k += 1;
        }
        None
    }

    /// Whether the given comparator places `a` strictly before `b`.
    pub(crate) fn edge_less(a: &(Output, Input), b: &(Output, Input)) -> (r: bool)
        ensures
            r == edge_lt(*a, *b),
    {
        if a.0.t_idx.id() != b.0.t_idx.id() {
            a.0.t_idx.id() < b.0.t_idx.id()
        } else if a.0.index() != b.0.index() {
            a.0.index() < b.0.index()
        } else if a.1.t_idx.id() != b.1.t_idx.id() {
            a.1.t_idx.id() < b.1.t_idx.id()
        } else {
            a.1.index() < b.1.index()
        }
    }

    /// Connect a producer port to a consumer input.
    ///
    /// The operation verifies atomically that both ports exist, that
    /// their tags are equal, that the input is not already driven, and
    /// that no path leads from the consumer back to the producer; on
    /// any failure the graph is unchanged and the matching error comes
    /// back.  On success the edge is inserted and the caches of the
    /// consumer and of everything reachable forward from it are
    /// cleared.
    #[verifier::rlimit(60)]
    pub fn connect(&mut self, output: Output, input: Input) -> (r: Result<(), DSTError>)
        requires
            old(self).wf(),
        ensures
            final(self).wf(),
            !old(self).valid_output(output) ==> (r matches Err(e) && e is InvalidOutput && *final(self) == *old(self)),
            old(self).valid_output(output) && !old(self).valid_input(input) ==> (r matches Err(e)
                && e is InvalidInput && *final(self) == *old(self)),
            old(self).valid_output(output) && old(self).valid_input(input) && old(self).output_type_of(output) != old(self).input_type_of(input) ==> (r matches Err(e)
                && e is IncompatibleTypes && *final(self) == *old(self)),
            old(self).valid_output(output) && old(self).valid_input(input) && old(self).output_type_of(output) == old(self).input_type_of(input) && old(self).input_driven(
                input,
            ) ==> (r matches Err(e) && e is DuplicateEdge && *final(self) == *old(self)),
            old(self).valid_output(output) && old(self).valid_input(input) && old(self).output_type_of(output) == old(self).input_type_of(input) && !old(self).input_driven(
                input,
            ) && graph::reach(
                old(self).dep_rel(),
                input.t_idx.0 as int,
                output.t_idx.0 as int,
            ) ==> (r matches Err(e) && e is Cycle && *final(self) == *old(self)),
            old(self).valid_output(output) && old(self).valid_input(input) && old(self).output_type_of(output) == old(self).input_type_of(input) && !old(self).input_driven(
                input,
            ) && !graph::reach(
                old(self).dep_rel(),
                input.t_idx.0 as int,
                output.t_idx.0 as int,
            ) ==> r == Ok::<(), DSTError>(()) && {
                &&& exists|pos: int|
                    0 <= pos <= old(self).e_seq().len() && final(self).e_seq() == old(self).e_seq().insert(pos, (output, input))
                &&& final(self).e_seq().len() == old(self).e_seq().len() + 1
                &&& forall|e: (Output, Input)|
                    final(self).e_seq().contains(e) <==> (old(self).e_seq().contains(e) || e == (
                    output,
                    input,
                    ))
                &&& final(self).o_seq() == old(self).o_seq()
                &&& final(self).next_t() == old(self).next_t()
                &&& final(self).next_o() == old(self).next_o()
                &&& final(self).t_seq().len() == old(self).t_seq().len()
                &&& forall|i: int|
                    0 <= i < old(self).t_seq().len() ==> (#[trigger] final(self).t_seq()[i]).0 == (
                    #[trigger] old(self).t_seq()[i]).0 && final(self).t_seq()[i].1.data() == (
                    if graph::reach(
                        old(self).dep_rel(),
                        input.t_idx.0 as int,
                        old(self).t_seq()[i].0.0 as int,
                    ) {
                        old(self).t_seq()[i].1.data().cleared()
                    } else {
                        old(self).t_seq()[i].1.data()
                    })
            },
    {
        if !self.check_output(output) {
            return Err(DSTError::InvalidOutput("output port does not exist".to_owned()));
        }
        if !self.check_input(input) {
            return Err(DSTError::InvalidInput("input port does not exist".to_owned()));
        }
        let ot = self.port_output_type(output);
        let it = self.port_input_type(input);
        if ot != it {
            return Err(DSTError::IncompatibleTypes("output and input types differ".to_owned()));
        }
        match self.find_driver(input) {
            Some(_) => {
                return Err(DSTError::DuplicateEdge("input is already driven".to_owned()));
            },
            None => {},
        }
        let cone = self.reach_list(input.t_idx);
        if contains_id(&cone, output.t_idx) {
            proof {
                let j = choose|j: int|
                    0 <= j < cone@.len() && (#[trigger] cone@[j]).0 == output.t_idx.0;
            }
            return Err(DSTError::Cycle("the edge would close a cycle".to_owned()));
        }
        proof {
            if graph::reach(old(self).dep_rel(), input.t_idx.0 as int, output.t_idx.0 as int) {
                assert(has_id(cone@, output.t_idx.0 as int));
                assert(false);
            }
        }
        let ghost prev = *old(self);
        self.invalidate_cone(input.t_idx);
        let ghost mid = *self;
        let e = (output, input);
        let mut pos: usize = 0;
        while pos < self.edges.len() && Self::edge_less(&self.edges[pos], &e)
            invariant
                *self == mid,
                pos <= self.e_seq().len(),
                forall|j: int| 0 <= j < pos ==> edge_lt(#[trigger] self.e_seq()[j], e),
            decreases self.e_seq().len() - pos,
        {
            pos += 1;
        }
        proof {
            // the new edge is distinct from every present edge
            assert forall|j: int| 0 <= j < self.e_seq().len() implies self.e_seq()[j] != e by {
                if self.e_seq()[j] == e {
                    assert(prev.e_seq()[j].1 == input);
                    assert(prev.input_driven(input));
                }
            }
            if pos < self.e_seq().len() {
                lemma_edge_lt_total(self.e_seq()[pos as int], e);
                assert(edge_lt(e, self.e_seq()[pos as int]));
            }
        }
        let ghost before_insert = self.e_seq();
        self.edges.insert(pos, e);
        proof {
            DST::lemma_connect_insert(prev, mid, *self, output, input, pos as int);
            assert(0 <= pos as int <= prev.e_seq().len() && self.e_seq() == prev.e_seq().insert(
                pos as int,
                (output, input),
            ));
        }
        Ok(())
    }
}


/// Inserting an element at a position that respects the order keeps
/// the edge list sorted, and extends membership by exactly that
/// element.
pub(crate) proof fn lemma_sorted_insert(es: Seq<(Output, Input)>, e: (Output, Input), pos: int)
    requires
        forall|i: int, j: int| 0 <= i < j < es.len() ==> edge_lt(#[trigger] es[i], #[trigger] es[j]),
        0 <= pos <= es.len(),
        forall|j: int| 0 <= j < pos ==> edge_lt(#[trigger] es[j], e),
        pos < es.len() ==> edge_lt(e, es[pos]),
    ensures
        forall|i: int, j: int|
            0 <= i < j < es.insert(pos, e).len() ==> edge_lt(
                #[trigger] es.insert(pos, e)[i],
                #[trigger] es.insert(pos, e)[j],
            ),
        forall|e2: (Output, Input)|
            es.insert(pos, e).contains(e2) <==> (es.contains(e2) || e2 == e),
{
    let new = es.insert(pos, e);
    assert forall|i: int, j: int| 0 <= i < j < new.len() implies edge_lt(
        #[trigger] new[i],
        #[trigger] new[j],
    ) by {
        let pi = if i < pos { i } else { i - 1 };
        let pj = if j < pos { j } else { j - 1 };
        if i == pos {
            assert(new[j] == es[pj]);
            if pj == pos {
                assert(edge_lt(e, es[pos]));
            } else {
                assert(edge_lt(es[pos], es[pj]));
                lemma_edge_lt_trans(e, es[pos], es[pj]);
            }
        } else if j == pos {
            assert(new[i] == es[pi]);
            assert(edge_lt(es[pi], e));
        } else {
            assert(new[i] == es[pi]);
            assert(new[j] == es[pj]);
            if pi < pj {
                assert(edge_lt(es[pi], es[pj]));
            } else {
                assert(pi == pj && i < pos && j > pos);
                assert(edge_lt(es[pi], e));
                assert(edge_lt(e, es[pj]));
                lemma_edge_lt_trans(es[pi], e, es[pj]);
            }
        }
    }
    assert forall|e2: (Output, Input)| new.contains(e2) <==> (es.contains(e2) || e2 == e) by {
        if new.contains(e2) {
            let j = choose|j: int| 0 <= j < new.len() && new[j] == e2;
            if j != pos {
                let pj = if j < pos { j } else { j - 1 };
                assert(es[pj] == e2);
                assert(es.contains(e2));
            }
        }
        if es.contains(e2) {
            let j = choose|j: int| 0 <= j < es.len() && es[j] == e2;
            let nj = if j < pos { j } else { j + 1 };
            assert(new[nj] == e2);
            assert(new.contains(e2));
        }
        if e2 == e {
            assert(new[pos] == e2);
            assert(new.contains(e2));
        }
    }
}

impl DST {
    /// Inserting one edge extends the dependency relation by exactly
    /// its (producer, consumer) pair.
    pub(crate) proof fn lemma_dep_insert(mid: DST, new: DST, e: (Output, Input), pos: int)
        requires
            0 <= pos <= mid.e_seq().len(),
            new.e_seq() == mid.e_seq().insert(pos, e),
        ensures
            new.dep_rel() == mid.dep_rel().insert(((e.0.t_idx.0 as int), (e.1.t_idx.0 as int))),
    {
        let p = e.0.t_idx.0 as int;
        let c = e.1.t_idx.0 as int;
        assert(new.dep_rel() =~= mid.dep_rel().insert((p, c))) by {
            assert forall|pr: (int, int)| new.dep_rel().contains(pr) implies mid.dep_rel().insert(
                (p, c),
            ).contains(pr) by {
                let k = choose|k: int|
                    0 <= k < new.e_seq().len() && (#[trigger] new.e_seq()[k]).0.t_idx.0 == pr.0
                        && new.e_seq()[k].1.t_idx.0 == pr.1;
                if k != pos {
                    let pk = if k < pos {
                        k
                    } else {
                        k - 1
                    };
                    assert(mid.e_seq()[pk] == new.e_seq()[k]);
                    assert(mid.dep(pr.0, pr.1));
                }
            }
            assert forall|pr: (int, int)| mid.dep_rel().insert((p, c)).contains(pr) implies
                new.dep_rel().contains(pr) by {
                if pr == (p, c) {
                    assert(new.e_seq()[pos] == e);
                    assert(new.dep(p, c));
                } else {
                    assert(mid.dep(pr.0, pr.1));
                    let k = choose|k: int|
                        0 <= k < mid.e_seq().len() && (#[trigger] mid.e_seq()[k]).0.t_idx.0 == pr.0
                            && mid.e_seq()[k].1.t_idx.0 == pr.1;
                    let nk = if k < pos {
                        k
                    } else {
                        k + 1
                    };
                    assert(new.e_seq()[nk] == mid.e_seq()[k]);
                    assert(new.dep(pr.0, pr.1));
                }
            }
        }
    }

    /// Inserting a checked edge into the invalidated graph yields a
    /// well-formed graph whose edges are the old ones plus the new one.
    #[verifier::rlimit(100)]
    pub(crate) proof fn lemma_connect_insert(
        prev: DST,
        mid: DST,
        new: DST,
        output: Output,
        input: Input,
        pos: int,
    )
        requires
            prev.wf(),
            mid.t_seq().len() == prev.t_seq().len(),
            forall|i: int|
                0 <= i < prev.t_seq().len() ==> (#[trigger] mid.t_seq()[i]).0 == (
                #[trigger] prev.t_seq()[i]).0 && mid.t_seq()[i].1.data().t
                    == prev.t_seq()[i].1.data().t && mid.t_seq()[i].1.data().input_defaults
                    == prev.t_seq()[i].1.data().input_defaults
                    && mid.t_seq()[i].1.data().cache.len()
                    == prev.t_seq()[i].1.data().cache.len(),
            mid.e_seq() == prev.e_seq(),
            mid.o_seq() == prev.o_seq(),
            mid.next_t() == prev.next_t(),
            mid.next_o() == prev.next_o(),
            prev.valid_output(output),
            prev.valid_input(input),
            prev.output_type_of(output) == prev.input_type_of(input),
            !prev.input_driven(input),
            !graph::reach(prev.dep_rel(), input.t_idx.0 as int, output.t_idx.0 as int),
            0 <= pos <= mid.e_seq().len(),
            forall|j: int| 0 <= j < pos ==> edge_lt(#[trigger] mid.e_seq()[j], (output, input)),
            pos < mid.e_seq().len() ==> edge_lt((output, input), mid.e_seq()[pos]),
            new.e_seq() == mid.e_seq().insert(pos, (output, input)),
            new.t_seq() == mid.t_seq(),
            new.o_seq() == mid.o_seq(),
            new.next_t() == mid.next_t(),
            new.next_o() == mid.next_o(),
        ensures
            new.wf(),
            new.e_seq().len() == prev.e_seq().len() + 1,
            forall|e2: (Output, Input)|
                new.e_seq().contains(e2) <==> (prev.e_seq().contains(e2) || e2 == (output, input)),
    {
        let e = (output, input);
        DST::lemma_wf_cache_change(prev, mid);
        lemma_sorted_insert(mid.e_seq(), e, pos);
        DST::lemma_dep_insert(mid, new, e, pos);
        assert forall|t: int| mid.has_t(t) implies new.has_t(t) && new.meta_data(t)
            == mid.meta_data(t) by {
            let i = mid.t_index(t);
            assert(new.t_seq()[i].0.0 == t);
            new.lemma_t_index_unique(i);
        }
        assert forall|t: int| new.has_t(t) implies mid.has_t(t) by {
            let i = new.t_index(t);
            assert(mid.t_seq()[i].0.0 == t);
        }
        // every edge joins existing ports of equal tags
        assert forall|k: int| 0 <= k < new.e_seq().len() implies new.valid_output(
            (#[trigger] new.e_seq()[k]).0,
        ) && new.valid_input(new.e_seq()[k].1) && new.output_type_of(new.e_seq()[k].0)
            == new.input_type_of(new.e_seq()[k].1) by {
            let e2 = new.e_seq()[k];
            if k == pos {
                assert(e2 == e);
                assert(mid.valid_output(output) && mid.valid_input(input));
                assert(mid.output_type_of(output) == mid.input_type_of(input));
            } else {
                let pk = if k < pos {
                    k
                } else {
                    k - 1
                };
                assert(e2 == mid.e_seq()[pk]);
                assert(mid.valid_output(e2.0) && mid.valid_input(e2.1));
                assert(mid.output_type_of(e2.0) == mid.input_type_of(e2.1));
            }
        }
        // each input keeps a single driver
        assert forall|i: int, j: int|
            0 <= i < new.e_seq().len() && 0 <= j < new.e_seq().len() && i != j implies (
        #[trigger] new.e_seq()[i]).1 != (#[trigger] new.e_seq()[j]).1 by {
            if i != pos && j != pos {
                let pi = if i < pos {
                    i
                } else {
                    i - 1
                };
                let pj = if j < pos {
                    j
                } else {
                    j - 1
                };
                assert(new.e_seq()[i] == mid.e_seq()[pi]);
                assert(new.e_seq()[j] == mid.e_seq()[pj]);
            } else if i == pos {
                let pj = if j < pos {
                    j
                } else {
                    j - 1
                };
                assert(new.e_seq()[j] == mid.e_seq()[pj]);
                if new.e_seq()[j].1 == input {
                    assert(prev.input_driven(input));
                }
            } else {
                let pi = if i < pos {
                    i
                } else {
                    i - 1
                };
                assert(new.e_seq()[i] == mid.e_seq()[pi]);
                if new.e_seq()[i].1 == input {
                    assert(prev.input_driven(input));
                }
            }
        }
        // acyclicity of the extended dependency relation
        graph::lemma_preserve_acyclic(
            mid.dep_rel(),
            output.t_idx.0 as int,
            input.t_idx.0 as int,
        );
        // sinks unchanged
        assert forall|k: int| 0 <= k < new.o_seq().len() implies ((
        #[trigger] new.o_seq()[k]).1 matches Some(o) ==> new.valid_output(o)) by {
            if new.o_seq()[k].1 is Some {
                let o = new.o_seq()[k].1->Some_0;
                assert(mid.valid_output(o));
            }
        }
        assert(new.wf());
        assert forall|e2: (Output, Input)|
            new.e_seq().contains(e2) <==> (prev.e_seq().contains(e2) || e2 == e) by {
            assert(mid.e_seq().insert(pos, e).contains(e2) <==> (mid.e_seq().contains(e2) || e2
                == e));
        }
    }
}


/// Removing an element keeps the edge list sorted and shrinks
/// membership by exactly that element.
pub(crate) proof fn lemma_sorted_remove(es: Seq<(Output, Input)>, pos: int)
    requires
        forall|i: int, j: int| 0 <= i < j < es.len() ==> edge_lt(#[trigger] es[i], #[trigger] es[j]),
        forall|i: int, j: int|
            0 <= i < es.len() && 0 <= j < es.len() && i != j ==> (#[trigger] es[i]).1 != (
            #[trigger] es[j]).1,
        0 <= pos < es.len(),
    ensures
        forall|i: int, j: int|
            0 <= i < j < es.remove(pos).len() ==> edge_lt(
                #[trigger] es.remove(pos)[i],
                #[trigger] es.remove(pos)[j],
            ),
        forall|e2: (Output, Input)|
            es.remove(pos).contains(e2) <==> (es.contains(e2) && e2 != es[pos]),
{
    let new = es.remove(pos);
    assert forall|i: int, j: int| 0 <= i < j < new.len() implies edge_lt(
        #[trigger] new[i],
        #[trigger] new[j],
    ) by {
        let pi = if i < pos { i } else { i + 1 };
        let pj = if j < pos { j } else { j + 1 };
        assert(new[i] == es[pi]);
        assert(new[j] == es[pj]);
    }
    assert forall|e2: (Output, Input)| new.contains(e2) <==> (es.contains(e2) && e2 != es[pos]) by {
        if new.contains(e2) {
            let j = choose|j: int| 0 <= j < new.len() && new[j] == e2;
            let pj = if j < pos { j } else { j + 1 };
            assert(es[pj] == e2);
            assert(es.contains(e2));
            if e2 == es[pos] {
                assert(es[pj].1 == es[pos].1);
            }
        }
        if es.contains(e2) && e2 != es[pos] {
            let j = choose|j: int| 0 <= j < es.len() && es[j] == e2;
            let nj = if j < pos { j } else { j - 1 };
            assert(j != pos);
            assert(new[nj] == e2);
            assert(new.contains(e2));
        }
    }
}

impl DST {
    /// Well-formedness carries over to a graph whose nodes keep their
    /// ids and port lists; descriptors may otherwise change as long as
    /// every node stays well formed.
    pub(crate) proof fn lemma_wf_shape(a: DST, b: DST)
        requires
            a.wf(),
            b.t_seq().len() == a.t_seq().len(),
            forall|i: int|
                0 <= i < a.t_seq().len() ==> (#[trigger] b.t_seq()[i]).0 == (
                #[trigger] a.t_seq()[i]).0 && b.t_seq()[i].1.data().t.output
                    == a.t_seq()[i].1.data().t.output && b.t_seq()[i].1.data().t.input
                    == a.t_seq()[i].1.data().t.input && b.t_seq()[i].1.data().wf(),
            b.e_seq() == a.e_seq(),
            b.o_seq() == a.o_seq(),
            b.next_t() == a.next_t(),
            b.next_o() == a.next_o(),
        ensures
            b.wf(),
            forall|t: int| a.has_t(t) <==> b.has_t(t),
            forall|t: int| a.has_t(t) ==> b.t_index(t) == a.t_index(t),
            forall|o: Output| a.valid_output(o) <==> b.valid_output(o),
            forall|i: Input| a.valid_input(i) <==> b.valid_input(i),
            b.dep_rel() == a.dep_rel(),
    {
        DST::lemma_same_keys(a, b);
        assert forall|t: int| b.has_t(t) implies a.has_t(t) by {
            let i = b.t_index(t);
            assert(a.t_seq()[i].0.0 == t);
        }
        assert forall|t: int| a.has_t(t) implies b.meta_data(t).t.output == a.meta_data(
            t,
        ).t.output && b.meta_data(t).t.input == a.meta_data(t).t.input by {
            let i = a.t_index(t);
        }
        DST::lemma_dep_rel_eq(a, b);
        assert forall|o: Output| a.valid_output(o) == b.valid_output(o) by {
            if a.has_t(o.t_idx.0 as int) {
            }
        }
        assert forall|i: Input| a.valid_input(i) == b.valid_input(i) by {
            if a.has_t(i.t_idx.0 as int) {
            }
        }
        assert forall|i: int| 0 <= i < b.t_seq().len() implies (
        #[trigger] b.t_seq()[i]).1.data().wf() by {
            assert(b.t_seq()[i].0 == a.t_seq()[i].0);
        }
        assert forall|k: int| 0 <= k < b.e_seq().len() implies b.valid_output(
            (#[trigger] b.e_seq()[k]).0,
        ) && b.valid_input(b.e_seq()[k].1) && b.output_type_of(b.e_seq()[k].0) == b.input_type_of(
            b.e_seq()[k].1,
        ) by {
            assert(a.valid_output(a.e_seq()[k].0));
            assert(a.valid_input(a.e_seq()[k].1));
            let o = a.e_seq()[k].0;
            let inp = a.e_seq()[k].1;
            assert(b.meta_data(o.t_idx.0 as int).t.output == a.meta_data(o.t_idx.0 as int).t.output);
            assert(b.meta_data(inp.t_idx.0 as int).t.input == a.meta_data(
                inp.t_idx.0 as int,
            ).t.input);
        }
        assert forall|k: int| 0 <= k < b.o_seq().len() implies ((#[trigger] b.o_seq()[k]).1 matches Some(
            o,
        ) ==> b.valid_output(o)) by {
            if b.o_seq()[k].1 is Some {
                let o = b.o_seq()[k].1->Some_0;
                assert(a.valid_output(o));
            }
        }
        assert forall|i: int, j: int|
            0 <= i < j < b.t_seq().len() implies (#[trigger] b.t_seq()[i]).0.0 < (
        #[trigger] b.t_seq()[j]).0.0 by {
            assert(a.t_seq()[i].0.0 < a.t_seq()[j].0.0);
        }
        assert forall|i: int| 0 <= i < b.t_seq().len() implies (#[trigger] b.t_seq()[i]).0.0
            < b.next_t() by {
            assert(a.t_seq()[i].0.0 < a.next_t());
        }
    }

    /// Remove the edge from the producer port to the consumer input,
    /// if it is present, and clear the caches of the consumer and of
    /// everything reachable forward from it.  An absent edge is
    /// ignored.
    #[verifier::rlimit(100)]
    #[verifier::spinoff_prover]
    pub fn disconnect(&mut self, output: &Output, input: &Input)
        requires
            old(self).wf(),
        ensures
            final(self).wf(),
            !old(self).e_seq().contains((*output, *input)) ==> *final(self) == *old(self),
            old(self).e_seq().contains((*output, *input)) ==> {
                &&& final(self).e_seq().len() == old(self).e_seq().len() - 1
                &&& forall|e2: (Output, Input)|
                    final(self).e_seq().contains(e2) <==> (old(self).e_seq().contains(e2) && e2
                        != (*output, *input))
                &&& final(self).o_seq() == old(self).o_seq()
                &&& final(self).next_t() == old(self).next_t()
                &&& final(self).next_o() == old(self).next_o()
                &&& final(self).t_seq().len() == old(self).t_seq().len()
                &&& forall|i: int|
                    0 <= i < old(self).t_seq().len() ==> (#[trigger] final(self).t_seq()[i]).0 == (
                    #[trigger] old(self).t_seq()[i]).0 && final(self).t_seq()[i].1.data() == (
                    if graph::reach(
                        old(self).dep_rel(),
                        input.t_idx.0 as int,
                        old(self).t_seq()[i].0.0 as int,
                    ) {
                        old(self).t_seq()[i].1.data().cleared()
                    } else {
                        old(self).t_seq()[i].1.data()
                    })
            },
    {
        let e = (*output, *input);
        let pos = match self.find_edge(&e) {
            None => {
                return ;
            },
            Some(pos) => pos,
        };
        proof {
            assert(self.valid_input(*input));
        }
        let ghost prev = *old(self);
        self.invalidate_cone(input.t_idx);
        let ghost mid = *self;
        proof {
            DST::lemma_wf_cache_change(prev, mid);
        }
        self.edges.remove(pos);
        proof {
            let new = *self;
            assert(new.e_seq() == mid.e_seq().remove(pos as int));
            lemma_sorted_remove(mid.e_seq(), pos as int);
            // the dependency relation only shrinks
            assert(new.dep_rel().subset_of(mid.dep_rel())) by {
                assert forall|pr: (int, int)| new.dep_rel().contains(pr) implies mid.dep_rel(
                ).contains(pr) by {
                    let j = choose|j: int|
                        0 <= j < new.e_seq().len() && (#[trigger] new.e_seq()[j]).0.t_idx.0 == pr.0
                            && new.e_seq()[j].1.t_idx.0 == pr.1;
                    let pj = if j < pos as int { j } else { j + 1 };
                    assert(mid.e_seq()[pj] == new.e_seq()[j]);
                    assert(mid.dep(pr.0, pr.1));
                }
            }
            graph::lemma_acyclic_subset(new.dep_rel(), mid.dep_rel());
            assert forall|t: int| mid.has_t(t) implies new.has_t(t) && new.meta_data(t)
                == mid.meta_data(t) by {
                let i = mid.t_index(t);
                assert(new.t_seq()[i].0.0 == t);
                new.lemma_t_index_unique(i);
            }
            assert forall|k2: int| 0 <= k2 < new.e_seq().len() implies new.valid_output(
                (#[trigger] new.e_seq()[k2]).0,
            ) && new.valid_input(new.e_seq()[k2].1) && new.output_type_of(new.e_seq()[k2].0)
                == new.input_type_of(new.e_seq()[k2].1) by {
                let pk = if k2 < pos as int { k2 } else { k2 + 1 };
                assert(new.e_seq()[k2] == mid.e_seq()[pk]);
                assert(mid.valid_output(new.e_seq()[k2].0));
                assert(mid.valid_input(new.e_seq()[k2].1));
            }
            assert forall|i: int, j: int|
                0 <= i < new.e_seq().len() && 0 <= j < new.e_seq().len() && i != j implies (
            #[trigger] new.e_seq()[i]).1 != (#[trigger] new.e_seq()[j]).1 by {
                let pi = if i < pos as int { i } else { i + 1 };
                let pj = if j < pos as int { j } else { j + 1 };
                assert(new.e_seq()[i] == mid.e_seq()[pi]);
                assert(new.e_seq()[j] == mid.e_seq()[pj]);
            }
            assert forall|k2: int| 0 <= k2 < new.o_seq().len() implies ((
            #[trigger] new.o_seq()[k2]).1 matches Some(o) ==> new.valid_output(o)) by {
                if new.o_seq()[k2].1 is Some {
                    let o = new.o_seq()[k2].1->Some_0;
                    assert(mid.valid_output(o));
                }
            }
            assert(new.wf());
        }
    }

    /// Override the `input_i`-th default value of the node, clearing
    /// the caches of the node and of everything reachable forward from
    /// it.  The value's tag must equal the declared input tag.
    #[verifier::rlimit(60)]
    pub fn write_default(&mut self, idx: TransformIdx, input_i: usize, value: IOValue) -> (r:
        Result<(), DSTError>)
        requires
            old(self).wf(),
        ensures
            final(self).wf(),
            !(old(self).has_t(idx.0 as int) && (input_i as int) < old(self).meta_data(
                idx.0 as int,
            ).t.input.len()) ==> (r matches Err(e) && e is InvalidInput && *final(self) == *old(self)),
            old(self).has_t(idx.0 as int) && (input_i as int) < old(self).meta_data(
                idx.0 as int,
            ).t.input.len() && value@.tag() != old(self).meta_data(idx.0 as int).t.input[
                input_i as int].0 ==> (r matches Err(e) && e is IncompatibleTypes && *final(self)
                == *old(self)),
            old(self).has_t(idx.0 as int) && (input_i as int) < old(self).meta_data(
                idx.0 as int,
            ).t.input.len() && value@.tag() == old(self).meta_data(idx.0 as int).t.input[
                input_i as int].0 ==> r == Ok::<(), DSTError>(()) && {
                &&& final(self).e_seq() == old(self).e_seq()
                &&& final(self).o_seq() == old(self).o_seq()
                &&& final(self).next_t() == old(self).next_t()
                &&& final(self).next_o() == old(self).next_o()
                &&& final(self).t_seq().len() == old(self).t_seq().len()
                &&& forall|i: int|
                    0 <= i < old(self).t_seq().len() && i != old(self).t_index(idx.0 as int) ==> (
                    #[trigger] final(self).t_seq()[i]).0 == (#[trigger] old(self).t_seq()[i]).0
                        && final(self).t_seq()[i].1.data() == (if graph::reach(
                        old(self).dep_rel(),
                        idx.0 as int,
                        old(self).t_seq()[i].0.0 as int,
                    ) {
                        old(self).t_seq()[i].1.data().cleared()
                    } else {
                        old(self).t_seq()[i].1.data()
                    })
                &&& final(self).has_t(idx.0 as int)
                &&& final(self).meta_data(idx.0 as int).t == old(self).meta_data(idx.0 as int).t
                &&& final(self).meta_data(idx.0 as int).input_defaults == old(self).meta_data(
                    idx.0 as int,
                ).input_defaults.update(input_i as int, Some(value@))
                &&& forall|j: int|
                    0 <= j < final(self).meta_data(idx.0 as int).cache.len() ==> final(self).meta_data(idx.0 as int).cache[j] is None
            },
    {
        let i = match self.find_transform(idx) {
            None => {
                return Err(DSTError::InvalidInput("transform not found".to_owned()));
            },
            Some(i) => i,
        };
        proof {
            self.lemma_t_index_unique(i as int);
        }
        if input_i >= self.transforms[i].1.transform().input.len() {
            return Err(DSTError::InvalidInput("input port does not exist".to_owned()));
        }
        let declared = self.transforms[i].1.transform().nth_input_type(input_i);
        if value.get_type() != declared {
            return Err(DSTError::IncompatibleTypes("default value has the wrong type".to_owned()));
        }
        let ghost prev = *old(self);
        self.invalidate_cone(idx);
        let ghost mid = *self;
        proof {
            DST::lemma_wf_cache_change(prev, mid);
            assert(graph::reach_n(prev.dep_rel(), idx.0 as int, idx.0 as int, 0));
            assert(graph::reach(prev.dep_rel(), idx.0 as int, idx.0 as int));
        }
        let (id, mut m) = self.transforms.remove(i);
        m.input_defaults.set(input_i, Some(value));
        self.transforms.insert(i, (id, m));
        proof {
            let new = *self;
            assert(new.t_seq() =~= mid.t_seq().update(i as int, (id, m)));
            assert(m.data().input_defaults =~= mid.t_seq()[i as int].1.data().input_defaults.update(
                input_i as int,
                Some(value@),
            ));
            assert(m.data().t == mid.t_seq()[i as int].1.data().t);
            assert(m.data().cache == mid.t_seq()[i as int].1.data().cache);
            assert(m.data().wf()) by {
                assert(mid.t_seq()[i as int].1.data().wf());
                assert forall|j: int|
                    0 <= j < m.data().input_defaults.len() implies (
                #[trigger] m.data().input_defaults[j] matches Some(d) ==> d.tag()
                    == m.data().t.input[j].0) by {
                    if j != input_i as int {
                        assert(m.data().input_defaults[j] == mid.t_seq()[
                            i as int].1.data().input_defaults[j]);
                    }
                }
            }
            assert forall|i2: int| 0 <= i2 < new.t_seq().len() implies (
            #[trigger] new.t_seq()[i2]).0 == mid.t_seq()[i2].0 && new.t_seq()[i2].1.data().t.output
                == mid.t_seq()[i2].1.data().t.output && new.t_seq()[i2].1.data().t.input
                == mid.t_seq()[i2].1.data().t.input && new.t_seq()[i2].1.data().wf() by {
                if i2 != i as int {
                    assert(new.t_seq()[i2] == mid.t_seq()[i2]);
                    assert(mid.t_seq()[i2].1.data().wf());
                }
            }
            DST::lemma_wf_shape(mid, new);
            new.lemma_t_index_unique(i as int);
            assert(prev.t_index(idx.0 as int) == i as int);
            assert(mid.t_seq()[i as int].1.data() == prev.t_seq()[i as int].1.data().cleared());
        }
        Ok(())
    }

    /// Replace a constant transform's stored outputs.  The node must
    /// hold a constant and the new values' tags must equal the
    /// declared output tags; the caches of the node and of everything
    /// reachable forward from it are cleared.
    #[verifier::rlimit(60)]
    pub fn set_constant(&mut self, idx: TransformIdx, values: Vec<IOValue>) -> (r: Result<
        (),
        DSTError,
    >)
        requires
            old(self).wf(),
        ensures
            final(self).wf(),
            !old(self).has_t(idx.0 as int) ==> (r matches Err(e) && e is InvalidOutput && *final(self) == *old(self)),
            old(self).has_t(idx.0 as int) && !(old(self).meta_data(
                idx.0 as int,
            ).t.algorithm is Constant) ==> (r matches Err(e) && e is IncompatibleTypes && *final(self) == *old(self)),
            old(self).has_t(idx.0 as int) && old(self).meta_data(
                idx.0 as int,
            ).t.algorithm is Constant && !(values.deep_view().len() == old(self).meta_data(
                idx.0 as int,
            ).t.output.len() && (forall|j: int|
                0 <= j < values.deep_view().len() ==> (#[trigger] values.deep_view()[j]).tag()
                    == old(self).meta_data(idx.0 as int).t.output[j])) ==> (r matches Err(e)
                && e is IncompatibleTypes && *final(self) == *old(self)),
            old(self).has_t(idx.0 as int) && old(self).meta_data(
                idx.0 as int,
            ).t.algorithm is Constant && values.deep_view().len() == old(self).meta_data(
                idx.0 as int,
            ).t.output.len() && (forall|j: int|
                0 <= j < values.deep_view().len() ==> (#[trigger] values.deep_view()[j]).tag()
                    == old(self).meta_data(idx.0 as int).t.output[j]) ==> r == Ok::<(), DSTError>(
                (),
            ) && {
                &&& final(self).e_seq() == old(self).e_seq()
                &&& final(self).o_seq() == old(self).o_seq()
                &&& final(self).next_t() == old(self).next_t()
                &&& final(self).next_o() == old(self).next_o()
                &&& final(self).t_seq().len() == old(self).t_seq().len()
                &&& forall|i: int|
                    0 <= i < old(self).t_seq().len() && i != old(self).t_index(idx.0 as int) ==> (
                    #[trigger] final(self).t_seq()[i]).0 == (#[trigger] old(self).t_seq()[i]).0
                        && final(self).t_seq()[i].1.data() == (if graph::reach(
                        old(self).dep_rel(),
                        idx.0 as int,
                        old(self).t_seq()[i].0.0 as int,
                    ) {
                        old(self).t_seq()[i].1.data().cleared()
                    } else {
                        old(self).t_seq()[i].1.data()
                    })
                &&& final(self).has_t(idx.0 as int)
                &&& final(self).meta_data(idx.0 as int).t == TransData {
                    algorithm: crate::transform::AlgoData::Constant(values.deep_view()),
                    ..old(self).meta_data(idx.0 as int).t
                }
                &&& final(self).meta_data(idx.0 as int).input_defaults == old(self).meta_data(
                    idx.0 as int,
                ).input_defaults
                &&& forall|j: int|
                    0 <= j < final(self).meta_data(idx.0 as int).cache.len() ==> final(self).meta_data(idx.0 as int).cache[j] is None
            },
    {
        let i = match self.find_transform(idx) {
            None => {
                return Err(DSTError::InvalidOutput("transform not found".to_owned()));
            },
            Some(i) => i,
        };
        proof {
            self.lemma_t_index_unique(i as int);
        }
        let is_constant = match &self.transforms[i].1.transform().algorithm {
            Algorithm::Constant(_) => true,
            Algorithm::Function => false,
        };
        if !is_constant {
            return Err(DSTError::IncompatibleTypes("the transform is not a constant".to_owned()));
        }
        if values.len() != self.transforms[i].1.transform().output.len() {
            return Err(DSTError::IncompatibleTypes("constant arity would change".to_owned()));
        }
        let mut j: usize = 0;
        while j < values.len()
            invariant
                *self == *old(self),
                self.wf(),
                i < self.t_seq().len(),
                self.t_seq()[i as int].0 == idx,
                self.t_index(idx.0 as int) == i as int,
                self.has_t(idx.0 as int),
                j <= values@.len(),
                values@.len() == self.meta_data(idx.0 as int).t.output.len(),
                forall|k: int|
                    0 <= k < j ==> (#[trigger] values.deep_view()[k]).tag() == self.meta_data(
                        idx.0 as int,
                    ).t.output[k],
            decreases values@.len() - j,
        {
            let declared = self.transforms[i].1.transform().nth_output_type(j);
            if values[j].get_type() != declared {
                proof {
                    assert(values.deep_view()[j as int].tag() != old(self).meta_data(
                        idx.0 as int,
                    ).t.output[j as int]);
                }
                return Err(DSTError::IncompatibleTypes(
                    "constant value has the wrong type".to_owned(),
                ));
            }
            j += 1;
        }
        let ghost prev = *old(self);
        self.invalidate_cone(idx);
        let ghost mid = *self;
        proof {
            DST::lemma_wf_cache_change(prev, mid);
            assert(graph::reach_n(prev.dep_rel(), idx.0 as int, idx.0 as int, 0));
            assert(graph::reach(prev.dep_rel(), idx.0 as int, idx.0 as int));
        }
        let (id, mut m) = self.transforms.remove(i);
        m.t.algorithm = Algorithm::Constant(values);
        self.transforms.insert(i, (id, m));
        proof {
            let new = *self;
            assert(new.t_seq() =~= mid.t_seq().update(i as int, (id, m)));
            assert(m.data().t.output == mid.t_seq()[i as int].1.data().t.output);
            assert(m.data().t.input == mid.t_seq()[i as int].1.data().t.input);
            assert(m.data().t.name == mid.t_seq()[i as int].1.data().t.name);
            assert(m.data().input_defaults == mid.t_seq()[i as int].1.data().input_defaults);
            assert(m.data().cache == mid.t_seq()[i as int].1.data().cache);
            assert(m.data().wf()) by {
                assert(mid.t_seq()[i as int].1.data().wf());
                assert(prev.t_seq()[i as int].1.data().wf());
            }
            assert forall|i2: int| 0 <= i2 < new.t_seq().len() implies (
            #[trigger] new.t_seq()[i2]).0 == mid.t_seq()[i2].0 && new.t_seq()[i2].1.data().t.output
                == mid.t_seq()[i2].1.data().t.output && new.t_seq()[i2].1.data().t.input
                == mid.t_seq()[i2].1.data().t.input && new.t_seq()[i2].1.data().wf() by {
                if i2 != i as int {
                    assert(new.t_seq()[i2] == mid.t_seq()[i2]);
                    assert(mid.t_seq()[i2].1.data().wf());
                }
            }
            DST::lemma_wf_shape(mid, new);
            new.lemma_t_index_unique(i as int);
            assert(prev.t_index(idx.0 as int) == i as int);
            assert(mid.t_seq()[i as int].1.data() == prev.t_seq()[i as int].1.data().cleared());
            assert(new.meta_data(idx.0 as int).t =~~= TransData {
                algorithm: crate::transform::AlgoData::Constant(values.deep_view()),
                ..prev.meta_data(idx.0 as int).t
            });
        }
        Ok(())
    }
}


impl DST {
    /// The position of an edge in the edge list, if present.
    pub(crate) fn find_edge(&self, e: &(Output, Input)) -> (r: Option<usize>)
        ensures
            r is None ==> !self.e_seq().contains(*e),
            r matches Some(i) ==> i < self.e_seq().len() && self.e_seq()[i as int] == *e,
    {
        let mut k: usize = 0;
        while k < self.edges.len()
            invariant
                k <= self.e_seq().len(),
                forall|j: int| 0 <= j < k ==> (#[trigger] self.e_seq()[j]) != *e,
            decreases self.e_seq().len() - k,
        {
            if self.edges[k].0 == e.0 && self.edges[k].1 == e.1 {
                return Some(k);
            }
            k += 1;
        }
        proof {
            if self.e_seq().contains(*e) {
                let j = choose|j: int|
                    0 <= j < self.e_seq().len() && (#[trigger] self.e_seq()[j]) == *e;
            }
        }
        None
    }
}


impl DST {
    /// Drop every edge that touches the given node, as producer or as
    /// consumer.  Removing edges can break no graph invariant.
    pub(crate) fn retain_edges_without(&mut self, idx: TransformIdx)
        requires
            old(self).wf(),
        ensures
            final(self).wf(),
            final(self).t_seq() == old(self).t_seq(),
            final(self).o_seq() == old(self).o_seq(),
            final(self).next_t() == old(self).next_t(),
            final(self).next_o() == old(self).next_o(),
            forall|e: (Output, Input)|
                final(self).e_seq().contains(e) <==> (old(self).e_seq().contains(e) && e.0.t_idx
                    != idx && e.1.t_idx != idx),
            forall|p: int, c: int|
                #[trigger] final(self).dep_rel().contains((p, c)) ==> old(self).dep_rel().contains(
                    (p, c),
                ),
    {
        let ghost prev = *old(self);
        let mut kept: Vec<(Output, Input)> = Vec::new();
        let mut k: usize = 0;
        while k < self.edges.len()
            invariant
                *self == prev,
                prev.wf(),
                k <= prev.e_seq().len(),
                forall|a: int|
                    0 <= a < kept@.len() ==> exists|j: int|
                        0 <= j < k && (#[trigger] kept@[a]) == prev.e_seq()[j],
                forall|a: int|
                    0 <= a < kept@.len() ==> (#[trigger] kept@[a]).0.t_idx != idx
                        && kept@[a].1.t_idx != idx,
                forall|j: int|
                    0 <= j < k && (#[trigger] prev.e_seq()[j]).0.t_idx != idx && prev.e_seq()[
                        j].1.t_idx != idx ==> kept@.contains(prev.e_seq()[j]),
                forall|a: int, b: int|
                    0 <= a < b < kept@.len() ==> edge_lt(#[trigger] kept@[a], #[trigger] kept@[b]),
            decreases prev.e_seq().len() - k,
        {
            let e = self.edges[k];
            if e.0.t_idx.id() != idx.id() && e.1.t_idx.id() != idx.id() {
                let ghost kept_before = kept@;
                kept.push(e);
                proof {
                    assert forall|a: int, b: int|
                        0 <= a < b < kept@.len() implies edge_lt(
                        #[trigger] kept@[a],
                        #[trigger] kept@[b],
                    ) by {
                        if b == kept@.len() - 1 {
                            let j = choose|j: int|
                                0 <= j < k && (#[trigger] kept_before[a]) == prev.e_seq()[j];
                            assert(edge_lt(prev.e_seq()[j], prev.e_seq()[k as int]));
                        }
                    }
                    assert forall|j: int|
                        0 <= j < k + 1 && (#[trigger] prev.e_seq()[j]).0.t_idx != idx
                            && prev.e_seq()[j].1.t_idx != idx implies kept@.contains(
                        prev.e_seq()[j],
                    ) by {
                        if j < k {
                            let a = choose|a: int|
                                0 <= a < kept_before.len() && kept_before[a] == prev.e_seq()[j];
                            assert(kept@[a] == prev.e_seq()[j]);
                        } else {
                            assert(kept@[kept@.len() - 1] == prev.e_seq()[j]);
                        }
                    }
                }
            }
            k += 1;
        }
        self.edges = kept;
        proof {
            let new = *self;
            assert forall|e: (Output, Input)|
                new.e_seq().contains(e) <==> (prev.e_seq().contains(e) && e.0.t_idx != idx
                    && e.1.t_idx != idx) by {
                if new.e_seq().contains(e) {
                    let a = choose|a: int| 0 <= a < new.e_seq().len() && new.e_seq()[a] == e;
                    let j = choose|j: int|
                        0 <= j < prev.e_seq().len() && (#[trigger] new.e_seq()[a])
                            == prev.e_seq()[j];
                    assert(prev.e_seq().contains(e));
                }
                if prev.e_seq().contains(e) && e.0.t_idx != idx && e.1.t_idx != idx {
                    let j = choose|j: int| 0 <= j < prev.e_seq().len() && prev.e_seq()[j] == e;
                }
            }
            assert(new.dep_rel().subset_of(prev.dep_rel())) by {
                assert forall|pr: (int, int)| new.dep_rel().contains(pr) implies prev.dep_rel(
                ).contains(pr) by {
                    let a = choose|a: int|
                        0 <= a < new.e_seq().len() && (#[trigger] new.e_seq()[a]).0.t_idx.0 == pr.0
                            && new.e_seq()[a].1.t_idx.0 == pr.1;
                    let j = choose|j: int|
                        0 <= j < prev.e_seq().len() && (#[trigger] new.e_seq()[a])
                            == prev.e_seq()[j];
                    assert(prev.dep(pr.0, pr.1));
                }
            }
            graph::lemma_acyclic_subset(new.dep_rel(), prev.dep_rel());
            assert forall|k2: int| 0 <= k2 < new.e_seq().len() implies new.valid_output(
                (#[trigger] new.e_seq()[k2]).0,
            ) && new.valid_input(new.e_seq()[k2].1) && new.output_type_of(new.e_seq()[k2].0)
                == new.input_type_of(new.e_seq()[k2].1) by {
                let j = choose|j: int|
                    0 <= j < prev.e_seq().len() && (#[trigger] new.e_seq()[k2]) == prev.e_seq()[j];
                assert(prev.valid_output(new.e_seq()[k2].0));
                assert(prev.valid_input(new.e_seq()[k2].1));
            }
            assert forall|i: int, j: int|
                0 <= i < new.e_seq().len() && 0 <= j < new.e_seq().len() && i != j implies (
            #[trigger] new.e_seq()[i]).1 != (#[trigger] new.e_seq()[j]).1 by {
                crate::builder::lemma_edge_lt_total(new.e_seq()[i], new.e_seq()[j]);
            }
            assert(new.wf());
        }
    }

    /// Detach every output node that observes a port of the given
    /// node.
    pub(crate) fn detach_sinks_of(&mut self, idx: TransformIdx)
        requires
            old(self).wf(),
        ensures
            final(self).wf(),
            final(self).t_seq() == old(self).t_seq(),
            final(self).e_seq() == old(self).e_seq(),
            final(self).next_t() == old(self).next_t(),
            final(self).next_o() == old(self).next_o(),
            final(self).o_seq().len() == old(self).o_seq().len(),
            forall|i: int|
                0 <= i < old(self).o_seq().len() ==> (#[trigger] final(self).o_seq()[i]).0 == (
                #[trigger] old(self).o_seq()[i]).0,
            forall|i: int|
                0 <= i < old(self).o_seq().len() ==> ((#[trigger] old(self).o_seq()[i]).1 matches
                    Some(o) ==> (if o.t_idx == idx {
                    final(self).o_seq()[i].1 is None
                } else {
                    final(self).o_seq()[i].1 == old(self).o_seq()[i].1
                })),
            forall|i: int|
                0 <= i < old(self).o_seq().len() ==> ((#[trigger] old(self).o_seq()[i]).1 is None
                    ==> final(self).o_seq()[i].1 is None),
            forall|i: int|
                0 <= i < old(self).o_seq().len() ==> ((#[trigger] final(self).o_seq()[i]).1 matches
                    Some(o) ==> final(self).o_seq()[i].1 == old(self).o_seq()[i].1 && o.t_idx
                    != idx),
    {
        let ghost prev = *old(self);
        let mut m: usize = 0;
        while m < self.outputs.len()
            invariant
                prev.wf(),
                m <= prev.o_seq().len(),
                self.t_seq() == prev.t_seq(),
                self.e_seq() == prev.e_seq(),
                self.next_t() == prev.next_t(),
                self.next_o() == prev.next_o(),
                self.o_seq().len() == prev.o_seq().len(),
                forall|i: int|
                    0 <= i < prev.o_seq().len() ==> (#[trigger] self.o_seq()[i]).0 == (
                    #[trigger] prev.o_seq()[i]).0,
                forall|i: int| m <= i < prev.o_seq().len() ==> self.o_seq()[i] == prev.o_seq()[i],
                forall|i: int|
                    0 <= i < m ==> ((#[trigger] prev.o_seq()[i]).1 matches Some(o) ==> (if o.t_idx
                        == idx {
                        self.o_seq()[i].1 is None
                    } else {
                        self.o_seq()[i].1 == prev.o_seq()[i].1
                    })),
                forall|i: int|
                    0 <= i < m ==> ((#[trigger] prev.o_seq()[i]).1 is None ==> self.o_seq()[
                        i].1 is None),
            decreases prev.o_seq().len() - m,
        {
            let must_detach = match &self.outputs[m].1 {
                Some(o) => o.t_idx.id() == idx.id(),
                None => false,
            };
            if must_detach {
                let id = self.outputs[m].0;
                self.outputs.set(m, (id, None));
            }
            m += 1;
        }
        proof {
            let new = *self;
            DST::lemma_dep_rel_eq(prev, new);
            assert forall|t: int| prev.has_t(t) implies new.has_t(t) && new.t_index(t)
                == prev.t_index(t) && new.meta_data(t) == prev.meta_data(t) by {
                let i = prev.t_index(t);
                assert(new.t_seq()[i].0.0 == t);
                new.lemma_t_index_unique(i);
            }
            assert forall|t: int| new.has_t(t) implies prev.has_t(t) by {
                let i = new.t_index(t);
                assert(prev.t_seq()[i].0.0 == t);
            }
            assert forall|k: int| 0 <= k < new.e_seq().len() implies new.valid_output(
                (#[trigger] new.e_seq()[k]).0,
            ) && new.valid_input(new.e_seq()[k].1) && new.output_type_of(new.e_seq()[k].0)
                == new.input_type_of(new.e_seq()[k].1) by {
                assert(prev.valid_output(prev.e_seq()[k].0));
                assert(prev.valid_input(prev.e_seq()[k].1));
            }
            assert forall|k: int| 0 <= k < new.o_seq().len() implies ((
            #[trigger] new.o_seq()[k]).1 matches Some(o) ==> new.valid_output(o)) by {
                if new.o_seq()[k].1 is Some {
                    let o = new.o_seq()[k].1->Some_0;
                    if prev.o_seq()[k].1 is Some {
                        let po = prev.o_seq()[k].1->Some_0;
                        if po.t_idx == idx {
                            assert(new.o_seq()[k].1 is None);
                        } else {
                            assert(new.o_seq()[k].1 == prev.o_seq()[k].1);
                            assert(prev.valid_output(o));
                        }
                    } else {
                        assert(new.o_seq()[k].1 is None);
                    }
                }
            }
            assert forall|i: int, j: int|
                0 <= i < j < new.o_seq().len() implies (#[trigger] new.o_seq()[i]).0.0 < (
            #[trigger] new.o_seq()[j]).0.0 by {
                assert(new.o_seq()[i].0 == prev.o_seq()[i].0);
                assert(new.o_seq()[j].0 == prev.o_seq()[j].0);
                assert(prev.o_seq()[i].0.0 < prev.o_seq()[j].0.0);
            }
            assert forall|i: int| 0 <= i < new.o_seq().len() implies (
            #[trigger] new.o_seq()[i]).0.0 < new.next_o() by {
                assert(new.o_seq()[i].0 == prev.o_seq()[i].0);
                assert(prev.o_seq()[i].0.0 < prev.next_o());
            }
            assert(new.wf());
        }
    }

    /// Take the node itself out of the table.  Every edge touching it
    /// and every sink observing it must already be gone.
    pub(crate) fn remove_node_entry(&mut self, idx: TransformIdx)
        requires
            old(self).wf(),
            old(self).has_t(idx.0 as int),
            forall|k: int|
                0 <= k < old(self).e_seq().len() ==> (#[trigger] old(self).e_seq()[k]).0.t_idx
                    != idx && old(self).e_seq()[k].1.t_idx != idx,
            forall|k: int|
                0 <= k < old(self).o_seq().len() ==> ((#[trigger] old(self).o_seq()[k]).1 matches
                    Some(o) ==> o.t_idx != idx),
        ensures
            final(self).wf(),
            final(self).e_seq() == old(self).e_seq(),
            final(self).o_seq() == old(self).o_seq(),
            final(self).next_t() == old(self).next_t(),
            final(self).next_o() == old(self).next_o(),
            !final(self).has_t(idx.0 as int),
            final(self).t_seq() == old(self).t_seq().remove(old(self).t_index(idx.0 as int)),
    {
        let i = self.find_transform(idx).unwrap();
        proof {
            self.lemma_t_index_unique(i as int);
        }
        self.transforms.remove(i);
        proof {
            let new = *self;
            let prev = *old(self);
            assert(new.t_seq() == prev.t_seq().remove(i as int));
            assert forall|a: int, b: int|
                0 <= a < b < new.t_seq().len() implies (#[trigger] new.t_seq()[a]).0.0 < (
            #[trigger] new.t_seq()[b]).0.0 by {
                let pa = if a < i as int { a } else { a + 1 };
                let pb = if b < i as int { b } else { b + 1 };
                assert(new.t_seq()[a] == prev.t_seq()[pa]);
                assert(new.t_seq()[b] == prev.t_seq()[pb]);
            }
            assert forall|a: int| 0 <= a < new.t_seq().len() implies (
            #[trigger] new.t_seq()[a]).0.0 < new.next_t() && new.t_seq()[a].1.data().wf() by {
                let pa = if a < i as int { a } else { a + 1 };
                assert(new.t_seq()[a] == prev.t_seq()[pa]);
                assert(prev.t_seq()[pa].0.0 < prev.next_t());
                assert(prev.t_seq()[pa].1.data().wf());
            }
            // surviving nodes keep their descriptors under lookup
            assert forall|t: int| prev.has_t(t) && t != idx.0 as int implies new.has_t(t)
                && new.meta_data(t).t == prev.meta_data(t).t by {
                let pj = prev.t_index(t);
                let nj = if pj < i as int { pj } else { pj - 1 };
                assert(pj != i as int) by {
                    if pj == i as int {
                        assert(prev.t_seq()[pj].0.0 == idx.0);
                    }
                }
                assert(new.t_seq()[nj] == prev.t_seq()[pj]);
                assert(new.has_t(t));
                new.lemma_t_index_unique(nj);
            }
            if new.has_t(idx.0 as int) {
                let j = new.t_index(idx.0 as int);
                let pj = if j < i as int { j } else { j + 1 };
                assert(new.t_seq()[j] == prev.t_seq()[pj]);
                prev.lemma_t_index_unique(pj);
                assert(false);
            }
            DST::lemma_dep_rel_eq(prev, new);
            assert forall|k: int| 0 <= k < new.e_seq().len() implies new.valid_output(
                (#[trigger] new.e_seq()[k]).0,
            ) && new.valid_input(new.e_seq()[k].1) && new.output_type_of(new.e_seq()[k].0)
                == new.input_type_of(new.e_seq()[k].1) by {
                assert(prev.valid_output(prev.e_seq()[k].0));
                assert(prev.valid_input(prev.e_seq()[k].1));
                assert(prev.e_seq()[k].0.t_idx != idx && prev.e_seq()[k].1.t_idx != idx);
            }
            assert forall|k: int| 0 <= k < new.o_seq().len() implies ((
            #[trigger] new.o_seq()[k]).1 matches Some(o) ==> new.valid_output(o)) by {
                if new.o_seq()[k].1 is Some {
                    let o = new.o_seq()[k].1->Some_0;
                    assert(prev.o_seq()[k] == new.o_seq()[k]);
                    assert(prev.valid_output(o));
                    assert(o.t_idx != idx);
                }
            }
            assert(new.wf());
        }
    }

    /// Remove a transformation node: every edge it produces for or
    /// consumes through is removed, every output node observing it is
    /// detached, its caches disappear with it, and the caches of every
    /// node that was reachable forward from it are cleared.  An
    /// unknown id leaves the graph unchanged.
    #[verifier::rlimit(60)]
    pub fn remove_transform(&mut self, idx: TransformIdx)
        requires
            old(self).wf(),
        ensures
            final(self).wf(),
            !old(self).has_t(idx.0 as int) ==> *final(self) == *old(self),
            old(self).has_t(idx.0 as int) ==> {
                &&& !final(self).has_t(idx.0 as int)
                &&& final(self).next_t() == old(self).next_t()
                &&& final(self).next_o() == old(self).next_o()
                &&& final(self).t_seq().len() == old(self).t_seq().len() - 1
                &&& forall|i: int|
                    0 <= i < final(self).t_seq().len() ==> {
                        let pi = if i < old(self).t_index(idx.0 as int) {
                            i
                        } else {
                            i + 1
                        };
                        (#[trigger] final(self).t_seq()[i]).0 == old(self).t_seq()[pi].0 && final(self).t_seq()[i].1.data() == (if graph::reach(
                            old(self).dep_rel(),
                            idx.0 as int,
                            old(self).t_seq()[pi].0.0 as int,
                        ) {
                            old(self).t_seq()[pi].1.data().cleared()
                        } else {
                            old(self).t_seq()[pi].1.data()
                        })
                    }
                &&& forall|e: (Output, Input)|
                    final(self).e_seq().contains(e) <==> (old(self).e_seq().contains(e) && e.0.t_idx
                        != idx && e.1.t_idx != idx)
                &&& final(self).o_seq().len() == old(self).o_seq().len()
                &&& forall|i: int|
                    0 <= i < old(self).o_seq().len() ==> (#[trigger] final(self).o_seq()[i]).0 == (
                    #[trigger] old(self).o_seq()[i]).0
                &&& forall|i: int|
                    0 <= i < old(self).o_seq().len() ==> ((#[trigger] old(self).o_seq()[i]).1
                        matches Some(o) ==> (if o.t_idx == idx {
                        final(self).o_seq()[i].1 is None
                    } else {
                        final(self).o_seq()[i].1 == old(self).o_seq()[i].1
                    }))
                &&& forall|i: int|
                    0 <= i < old(self).o_seq().len() ==> ((#[trigger] old(self).o_seq()[i]).1
                        is None ==> final(self).o_seq()[i].1 is None)
            },
    {
        if self.find_transform(idx).is_none() {
            return ;
        }
        let ghost prev = *old(self);
        self.invalidate_cone(idx);
        let ghost after_inv = *self;
        proof {
            DST::lemma_wf_cache_change(prev, after_inv);
        }
        self.retain_edges_without(idx);
        let ghost after_edges = *self;
        self.detach_sinks_of(idx);
        let ghost after_sinks = *self;
        proof {
            assert(after_sinks.has_t(idx.0 as int)) by {
                let i = prev.t_index(idx.0 as int);
                assert(after_sinks.t_seq()[i].0.0 == idx.0);
            }
            assert forall|k: int|
                0 <= k < after_sinks.e_seq().len() implies (
            #[trigger] after_sinks.e_seq()[k]).0.t_idx != idx && after_sinks.e_seq()[k].1.t_idx
                != idx by {
                assert(after_sinks.e_seq().contains(after_sinks.e_seq()[k]));
                assert(after_edges.e_seq().contains(after_sinks.e_seq()[k]));
            }
            assert forall|k: int|
                0 <= k < after_sinks.o_seq().len() implies ((
            #[trigger] after_sinks.o_seq()[k]).1 matches Some(o) ==> o.t_idx != idx) by {}
        }
        self.remove_node_entry(idx);
        proof {
            let new = *self;
            let i = prev.t_index(idx.0 as int);
            assert(after_sinks.t_seq() == after_inv.t_seq());
            assert(after_sinks.t_index(idx.0 as int) == i) by {
                assert(after_inv.t_seq()[i].0.0 == idx.0);
                after_sinks.lemma_t_index_unique(i);
            }
            assert(new.t_seq() == after_inv.t_seq().remove(i));
            assert forall|i2: int|
                0 <= i2 < new.t_seq().len() implies {
                let pi = if i2 < i {
                    i2
                } else {
                    i2 + 1
                };
                (#[trigger] new.t_seq()[i2]).0 == prev.t_seq()[pi].0 && new.t_seq()[i2].1.data()
                    == (if graph::reach(prev.dep_rel(), idx.0 as int, prev.t_seq()[pi].0.0 as int) {
                    prev.t_seq()[pi].1.data().cleared()
                } else {
                    prev.t_seq()[pi].1.data()
                })
            } by {
                let pi = if i2 < i {
                    i2
                } else {
                    i2 + 1
                };
                assert(new.t_seq()[i2] == after_inv.t_seq()[pi]);
            }
            assert forall|e: (Output, Input)|
                new.e_seq().contains(e) <==> (prev.e_seq().contains(e) && e.0.t_idx != idx
                    && e.1.t_idx != idx) by {
                assert(new.e_seq() == after_edges.e_seq());
                assert(after_edges.e_seq().contains(e) <==> (after_inv.e_seq().contains(e)
                    && e.0.t_idx != idx && e.1.t_idx != idx));
            }
        }
    }
}

} // verus!
