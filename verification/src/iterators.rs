//! Read-only walks over the graph: the dependency cone of a sink in
//! reverse-topological order, and node, edge, sink and link listings
//! in stable ascending order.

use vstd::prelude::*;

use crate::builder::contains_id;
use crate::builder::has_id;
use crate::dst::DSTError;
use crate::dst::Input;
use crate::dst::InputSlot;
use crate::dst::Output;
use crate::dst::OutputId;
use crate::dst::TransformIdx;
use crate::dst::DST;
use crate::graph;

verus! {

/// One step of a dependency walk: a transformation node that must be
/// computed before the nodes after it.
#[derive(Debug, Copy, Clone, PartialEq, Eq, Structural)]
pub struct Dependency {
    pub t_idx: TransformIdx,
}

impl Dependency {
    /// The node this step computes.
    pub fn transform_idx(&self) -> (r: TransformIdx)
        ensures
            r == self.t_idx,
    {
        self.t_idx
    }
}

/// A node of the graph: a transformation or an output node.
#[derive(Debug, Copy, Clone, PartialEq, Eq, Structural)]
pub enum NodeId {
    Transform(TransformIdx),
    Output(OutputId),
}

/// What a dependency walk delivers for sink node `t0`: exactly the
/// nodes from which `t0` is reachable, each once, ordered so that a
/// node never comes before another it is reachable from.
pub open(crate) spec fn dependency_walk(g: DST, t0: int, list: Seq<Dependency>) -> bool {
    &&& forall|k: int|
        0 <= k < list.len() ==> g.has_t((#[trigger] list[k]).t_idx.0 as int) && graph::reach(
            g.dep_rel(),
            list[k].t_idx.0 as int,
            t0,
        )
    &&& forall|x: int|
        g.has_t(x) && graph::reach(g.dep_rel(), x, t0) ==> exists|k: int|
            0 <= k < list.len() && (#[trigger] list[k]).t_idx.0 == x
    &&& forall|a: int, b: int|
        0 <= a < b < list.len() ==> (#[trigger] list[a]).t_idx != (#[trigger] list[b]).t_idx
    &&& forall|a: int, b: int|
        0 <= a < b < list.len() ==> !graph::reach(
            g.dep_rel(),
            (#[trigger] list[b]).t_idx.0 as int,
            (#[trigger] list[a]).t_idx.0 as int,
        )
}

/// Whether some node of `rem` feeds node `t` directly.
pub(crate) open spec fn has_waiting_pred(g: DST, rem: Seq<TransformIdx>, t: int) -> bool {
    exists|p: int| has_id(rem, p) && #[trigger] g.dep_rel().contains((p, t))
}

impl DST {
    /// Every node on a nonempty path has a last step into its end.
    pub(crate) proof fn lemma_reach_last_step(es: Set<(int, int)>, a: int, b: int, n: nat)
        requires
            graph::reach_n(es, a, b, n),
            n >= 1,
        ensures
            exists|m: int| graph::reach(es, a, m) && #[trigger] es.contains((m, b)),
        decreases n,
    {
        let m0 = choose|m0: int| es.contains((a, m0)) && graph::reach_n(es, m0, b, (n - 1) as nat);
        if n == 1 {
            assert(graph::reach_n(es, a, a, 0));
            assert(graph::reach(es, a, a) && es.contains((a, b)));
        } else {
            DST::lemma_reach_last_step(es, m0, b, (n - 1) as nat);
            let m = choose|m: int| graph::reach(es, m0, m) && #[trigger] es.contains((m, b));
            let k = choose|k: nat| graph::reach_n(es, m0, m, k);
            assert(graph::reach_n(es, a, m0, 1)) by {
                assert(graph::reach_n(es, m0, m0, 0));
            }
            graph::lemma_reach_n_trans(es, a, m0, m, 1, k);
            assert(graph::reach(es, a, m) && es.contains((m, b)));
        }
    }

    /// Among any nonempty set of waiting nodes there is one that no
    /// waiting node feeds: following predecessors strictly shrinks
    /// the ancestor count, so the descent stops.
    proof fn lemma_source_exists(g: DST, rem: Seq<TransformIdx>, x: int) -> (k: int)
        requires
            g.wf(),
            has_id(rem, x),
        ensures
            0 <= k < rem.len(),
            !has_waiting_pred(g, rem, rem[k].0 as int),
        decreases g.anc_card(x),
    {
        broadcast use vstd::seq_lib::seq_to_set_is_finite;

        let k0 = choose|k0: int| 0 <= k0 < rem.len() && (#[trigger] rem[k0]).0 == x;
        if has_waiting_pred(g, rem, x) {
            let p = choose|p: int| has_id(rem, p) && #[trigger] g.dep_rel().contains((p, x));
            g.lemma_dep_endpoints();
            g.lemma_tkey_set_contains(p);
            g.lemma_tkey_set_contains(x);
            graph::lemma_ancestors_strictly_decrease(g.dep_rel(), g.tkey_set(), p, x);
            let k = DST::lemma_source_exists(g, rem, p);
            k
        } else {
            k0
        }
    }

    /// The position of the first waiting node that no waiting node
    /// feeds, if any.
    fn find_ready(&self, remaining: &Vec<TransformIdx>) -> (r: Option<usize>)
        requires
            self.wf(),
        ensures
            r matches Some(i) ==> i < remaining@.len() && !has_waiting_pred(
                *self,
                remaining@,
                remaining@[i as int].0 as int,
            ),
            r is None ==> (forall|k: int|
                0 <= k < remaining@.len() ==> has_waiting_pred(
                    *self,
                    remaining@,
                    (#[trigger] remaining@[k]).0 as int,
                )),
    {
        let mut pick: usize = 0;
        while pick < remaining.len()
            invariant
                self.wf(),
                pick <= remaining@.len(),
                forall|a: int|
                    0 <= a < pick ==> has_waiting_pred(
                        *self,
                        remaining@,
                        (#[trigger] remaining@[a]).0 as int,
                    ),
            decreases remaining@.len() - pick,
        {
            let cand = remaining[pick];
            let mut e: usize = 0;
            let mut has_pred = false;
            while e < self.edges.len()
                invariant
                    self.wf(),
                    e <= self.e_seq().len(),
                    pick < remaining@.len(),
                    cand == remaining@[pick as int],
                    has_pred ==> has_waiting_pred(*self, remaining@, cand.0 as int),
                    !has_pred ==> forall|j: int|
                        0 <= j < e && (#[trigger] self.e_seq()[j]).1.t_idx.0 == cand.0 ==> !has_id(
                            remaining@,
                            self.e_seq()[j].0.t_idx.0 as int,
                        ),
                decreases self.e_seq().len() - e,
            {
                if self.edges[e].1.t_idx.id() == cand.id() && !has_pred {
                    if contains_id(remaining, self.edges[e].0.t_idx) {
                        proof {
                            let p = self.e_seq()[e as int].0.t_idx.0 as int;
                            assert(self.dep(p, cand.0 as int)) by {
                                assert((#[trigger] self.e_seq()[e as int]).0.t_idx.0 == p
                                    && self.e_seq()[e as int].1.t_idx.0 == cand.0);
                            }
                            assert(self.dep_rel().contains((p, cand.0 as int)));
                        }
                        has_pred = true;
                    }
                }
                e += 1;
            }
            if !has_pred {
                proof {
                    // no edge into the candidate has a waiting producer
                    if has_waiting_pred(*self, remaining@, cand.0 as int) {
                        let p = choose|p: int|
                            has_id(remaining@, p) && #[trigger] self.dep_rel().contains(
                                (p, cand.0 as int),
                            );
                        assert(self.dep(p, cand.0 as int));
                        let j = choose|j: int|
                            0 <= j < self.e_seq().len() && (#[trigger] self.e_seq()[j]).0.t_idx.0
                                == p && self.e_seq()[j].1.t_idx.0 == cand.0 as int;
                        assert(false);
                    }
                }
                return Some(pick);
            }
            pick += 1;
        }
        None
    }

    /// The nodes of the dependency cone of a sink, roots first, the
    /// sink's own node last.  When the node is known and attached the
    /// walk always succeeds, and the list holds exactly the nodes
    /// from which the attached port's node is reachable, each once,
    /// ordered so that a node never comes before another it is
    /// reachable from; among equally ready nodes the smallest id is
    /// emitted first.
    #[verifier::rlimit(100)]
    #[verifier::spinoff_prover]
    pub fn dependencies(&self, output_id: &OutputId) -> (r: Result<Vec<Dependency>, DSTError>)
        requires
            self.wf(),
        ensures
            !(self.has_oid(output_id.0 as int) && self.sink(output_id.0 as int) is Some) ==> (
            r matches Err(e) && e is MissingOutputID),
            self.has_oid(output_id.0 as int) ==> (self.sink(output_id.0 as int) matches Some(
                target,
            ) ==> (r matches Ok(list) && dependency_walk(*self, target.t_idx.0 as int, list@))),
    {
        let i = match self.find_output_id(*output_id) {
            None => {
                return Err(DSTError::MissingOutputID("output node not found".to_owned()));
            },
            Some(i) => i,
        };
        proof {
            self.lemma_oid_index_unique(i as int);
        }
        let target = match &self.outputs[i].1 {
            None => {
                return Err(DSTError::MissingOutputID("output node is not attached".to_owned()));
            },
            Some(o) => *o,
        };
        proof {
            assert(self.sink(output_id.0 as int) == Some(target));
            assert(self.valid_output(target));
        }
        let ghost t0 = target.t_idx.0 as int;
        // collect the ancestors of the sink's node, ascending by id
        let mut remaining: Vec<TransformIdx> = Vec::new();
        let mut s: usize = 0;
        while s < self.transforms.len()
            invariant
                self.wf(),
                self.valid_output(target),
                t0 == target.t_idx.0 as int,
                s <= self.t_seq().len(),
                forall|k: int|
                    0 <= k < remaining@.len() ==> self.has_t((#[trigger] remaining@[k]).0 as int)
                        && graph::reach(self.dep_rel(), remaining@[k].0 as int, t0),
                forall|a: int, b: int|
                    0 <= a < b < remaining@.len() ==> (#[trigger] remaining@[a]).0 != (
                    #[trigger] remaining@[b]).0,
                forall|j: int|
                    0 <= j < s && graph::reach(
                        self.dep_rel(),
                        (#[trigger] self.t_seq()[j]).0.0 as int,
                        t0,
                    ) ==> has_id(remaining@, self.t_seq()[j].0.0 as int),
                forall|k: int|
                    0 <= k < remaining@.len() ==> exists|j: int|
                        0 <= j < s && (#[trigger] remaining@[k]).0 == (
                        #[trigger] self.t_seq()[j]).0.0,
            decreases self.t_seq().len() - s,
        {
            let cand = self.transforms[s].0;
            let fwd = self.reach_list(cand);
            let ghost rem_before = remaining@;
            if contains_id(&fwd, target.t_idx) {
                proof {
                    let j = choose|j: int|
                        0 <= j < fwd@.len() && (#[trigger] fwd@[j]).0 == target.t_idx.0;
                    assert(graph::reach(self.dep_rel(), cand.0 as int, t0));
                    assert forall|a: int|
                        0 <= a < remaining@.len() implies (#[trigger] remaining@[a]).0 != cand.0 by {
                        let jj = choose|jj: int|
                            0 <= jj < s && (#[trigger] remaining@[a]).0 == (
                            #[trigger] self.t_seq()[jj]).0.0;
                        if remaining@[a].0 == cand.0 {
                            assert(self.t_seq()[jj].0.0 == self.t_seq()[s as int].0.0);
                            assert(self.t_seq()[jj].0.0 < self.t_seq()[s as int].0.0);
                        }
                    }
                }
                remaining.push(cand);
                proof {
                    assert(remaining@[remaining@.len() - 1].0 == cand.0);
                    assert(has_id(remaining@, cand.0 as int));
                    assert forall|v: int| has_id(rem_before, v) implies has_id(remaining@, v) by {
                        crate::builder::lemma_has_id_push(rem_before, cand, v);
                    }
                }
            } else {
                proof {
                    if graph::reach(self.dep_rel(), cand.0 as int, t0) {
                        assert(has_id(fwd@, t0));
                        assert(false);
                    }
                }
            }
            proof {
                assert forall|j: int|
                    0 <= j < s + 1 && graph::reach(
                        self.dep_rel(),
                        (#[trigger] self.t_seq()[j]).0.0 as int,
                        t0,
                    ) implies has_id(remaining@, self.t_seq()[j].0.0 as int) by {
                    if j < s {
                        assert(has_id(rem_before, self.t_seq()[j].0.0 as int));
                        if remaining@.len() > rem_before.len() {
                            crate::builder::lemma_has_id_push(
                                rem_before,
                                remaining@[remaining@.len() - 1],
                                self.t_seq()[j].0.0 as int,
                            );
                        }
                    }
                }
            }
            s += 1;
        }
        proof {
            assert forall|x: int|
                self.has_t(x) && graph::reach(self.dep_rel(), x, t0) implies has_id(
                remaining@,
                x,
            ) by {
                let j = self.t_index(x);
            }
        }
        // emit ready nodes, smallest id first
        let mut list: Vec<Dependency> = Vec::new();
        while remaining.len() > 0
            invariant
                self.wf(),
                self.valid_output(target),
                t0 == target.t_idx.0 as int,
                forall|k: int|
                    0 <= k < remaining@.len() ==> self.has_t((#[trigger] remaining@[k]).0 as int)
                        && graph::reach(self.dep_rel(), remaining@[k].0 as int, t0),
                forall|a: int, b: int|
                    0 <= a < b < remaining@.len() ==> (#[trigger] remaining@[a]).0 != (
                    #[trigger] remaining@[b]).0,
                forall|k: int|
                    0 <= k < list@.len() ==> self.has_t((#[trigger] list@[k]).t_idx.0 as int)
                        && graph::reach(self.dep_rel(), list@[k].t_idx.0 as int, t0),
                forall|a: int, b: int|
                    0 <= a < b < list@.len() ==> (#[trigger] list@[a]).t_idx != (
                    #[trigger] list@[b]).t_idx,
                forall|a: int, b: int|
                    0 <= a < list@.len() && 0 <= b < remaining@.len() ==> (
                    #[trigger] list@[a]).t_idx.0 != (#[trigger] remaining@[b]).0,
                forall|x: int|
                    self.has_t(x) && graph::reach(self.dep_rel(), x, t0) ==> (exists|k: int|
                        0 <= k < list@.len() && (#[trigger] list@[k]).t_idx.0 == x) || has_id(
                        remaining@,
                        x,
                    ),
                forall|a: int, b: int|
                    0 <= a < list@.len() && 0 <= b < remaining@.len() ==> !graph::reach(
                        self.dep_rel(),
                        (#[trigger] remaining@[b]).0 as int,
                        (#[trigger] list@[a]).t_idx.0 as int,
                    ),
                forall|a: int, b: int|
                    0 <= a < b < list@.len() ==> !graph::reach(
                        self.dep_rel(),
                        (#[trigger] list@[b]).t_idx.0 as int,
                        (#[trigger] list@[a]).t_idx.0 as int,
                    ),
            decreases remaining@.len(),
        {
            let pick = match self.find_ready(&remaining) {
                Some(pick) => pick,
                None => {
                    proof {
                        let k = DST::lemma_source_exists(
                            *self,
                            remaining@,
                            remaining@[0].0 as int,
                        );
                    }
                    unreached()
                },
            };
            let chosen = remaining[pick];
            let ghost rem_before = remaining@;
            remaining.remove(pick);
            proof {
                // no node still waiting reaches the chosen one
                assert forall|b: int| 0 <= b < remaining@.len() implies !graph::reach(
                    self.dep_rel(),
                    (#[trigger] remaining@[b]).0 as int,
                    chosen.0 as int,
                ) by {
                    let pb = if b < pick as int {
                        b
                    } else {
                        b + 1
                    };
                    assert(remaining@[b] == rem_before[pb]);
                    let rb = rem_before[pb].0 as int;
                    if graph::reach(self.dep_rel(), rb, chosen.0 as int) {
                        assert(rb != chosen.0 as int) by {
                            assert(rem_before[pb].0 != rem_before[pick as int].0);
                        }
                        let n = choose|n: nat|
                            graph::reach_n(self.dep_rel(), rb, chosen.0 as int, n);
                        assert(n >= 1) by {
                            if n == 0 {
                                assert(rb == chosen.0 as int);
                            }
                        }
                        DST::lemma_reach_last_step(self.dep_rel(), rb, chosen.0 as int, n);
                        let m = choose|m: int|
                            graph::reach(self.dep_rel(), rb, m) && #[trigger] self.dep_rel(
                            ).contains((m, chosen.0 as int));
                        self.lemma_dep_endpoints();
                        assert(self.has_t(m));
                        // the last-step node is itself an ancestor of the sink
                        assert(graph::reach(self.dep_rel(), m, t0)) by {
                            let n1 = choose|n1: nat|
                                graph::reach_n(self.dep_rel(), chosen.0 as int, t0, n1);
                            assert(graph::reach_n(self.dep_rel(), m, chosen.0 as int, 1)) by {
                                assert(graph::reach_n(
                                    self.dep_rel(),
                                    chosen.0 as int,
                                    chosen.0 as int,
                                    0,
                                ));
                            }
                            graph::lemma_reach_n_trans(
                                self.dep_rel(),
                                m,
                                chosen.0 as int,
                                t0,
                                1,
                                n1,
                            );
                        }
                        // so it was emitted or waiting; both fail
                        if has_id(rem_before, m) {
                            assert(has_waiting_pred(*self, rem_before, chosen.0 as int));
                            assert(false);
                        } else {
                            let k = choose|k: int|
                                0 <= k < list@.len() && (#[trigger] list@[k]).t_idx.0 == m;
                            assert(!graph::reach(
                                self.dep_rel(),
                                rem_before[pb].0 as int,
                                list@[k].t_idx.0 as int,
                            ));
                            assert(false);
                        }
                    }
                }
            }
            let ghost list_before = list@;
            list.push(Dependency { t_idx: chosen });
            proof {
                assert(list@[list@.len() - 1].t_idx == chosen);
                assert forall|a: int, b: int|
                    0 <= a < list@.len() && 0 <= b < remaining@.len() implies (
                #[trigger] list@[a]).t_idx.0 != (#[trigger] remaining@[b]).0 by {
                    let pb = if b < pick as int {
                        b
                    } else {
                        b + 1
                    };
                    assert(remaining@[b] == rem_before[pb]);
                    if a == list@.len() - 1 {
                        assert(rem_before[pb].0 != rem_before[pick as int].0);
                    }
                }
                assert forall|a: int, b: int|
                    0 <= a < b < list@.len() implies (#[trigger] list@[a]).t_idx != (
                #[trigger] list@[b]).t_idx by {
                    if b == list@.len() - 1 && a < b {
                        assert(list@[a].t_idx.0 != rem_before[pick as int].0);
                    }
                }
                assert forall|x: int|
                    self.has_t(x) && graph::reach(self.dep_rel(), x, t0) implies (exists|k: int|
                    0 <= k < list@.len() && (#[trigger] list@[k]).t_idx.0 == x) || has_id(
                    remaining@,
                    x,
                ) by {
                    if has_id(rem_before, x) {
                        let k0 = choose|k0: int|
                            0 <= k0 < rem_before.len() && (#[trigger] rem_before[k0]).0 == x;
                        if k0 == pick as int {
                            assert(list@[list@.len() - 1].t_idx.0 == x);
                        } else {
                            let nb = if k0 < pick as int {
                                k0
                            } else {
                                k0 - 1
                            };
                            assert(remaining@[nb].0 == x);
                        }
                    } else {
                        let k = choose|k: int|
                            0 <= k < list_before.len() && (#[trigger] list_before[k]).t_idx.0 == x;
                        assert(list@[k].t_idx.0 == x);
                    }
                }
            }
        }
        proof {
            assert forall|x: int|
                self.has_t(x) && graph::reach(self.dep_rel(), x, t0) implies exists|k: int|
                0 <= k < list@.len() && (#[trigger] list@[k]).t_idx.0 == x by {
                assert(!has_id(remaining@, x));
            }
            assert(dependency_walk(*self, t0, list@));
        }
        Ok(list)
    }

    /// All nodes: transformation nodes then output nodes, each
    /// ascending by id.
    pub fn node_ids(&self) -> (r: Vec<NodeId>)
        ensures
            r@.len() == self.t_seq().len() + self.o_seq().len(),
            forall|k: int|
                0 <= k < self.t_seq().len() ==> r@[k] == NodeId::Transform(
                    (#[trigger] self.t_seq()[k]).0,
                ),
            forall|k: int|
                0 <= k < self.o_seq().len() ==> r@[self.t_seq().len() + k] == NodeId::Output(
                    (#[trigger] self.o_seq()[k]).0,
                ),
    {
        let mut r: Vec<NodeId> = Vec::new();
        let mut i: usize = 0;
        while i < self.transforms.len()
            invariant
                i <= self.t_seq().len(),
                r@.len() == i,
                forall|k: int|
                    0 <= k < i ==> r@[k] == NodeId::Transform((#[trigger] self.t_seq()[k]).0),
            decreases self.t_seq().len() - i,
        {
            r.push(NodeId::Transform(self.transforms[i].0));
            i += 1;
        }
        let mut j: usize = 0;
        while j < self.outputs.len()
            invariant
                j <= self.o_seq().len(),
                r@.len() == self.t_seq().len() + j,
                forall|k: int|
                    0 <= k < self.t_seq().len() ==> r@[k] == NodeId::Transform(
                        (#[trigger] self.t_seq()[k]).0,
                    ),
                forall|k: int|
                    0 <= k < j ==> r@[self.t_seq().len() + k] == NodeId::Output(
                        (#[trigger] self.o_seq()[k]).0,
                    ),
            decreases self.o_seq().len() - j,
        {
            r.push(NodeId::Output(self.outputs[j].0));
            j += 1;
        }
        r
    }

    /// All edges, ascending.
    pub fn edges_iter(&self) -> (r: Vec<(Output, Input)>)
        ensures
            r@ == self.e_seq(),
    {
        let mut r: Vec<(Output, Input)> = Vec::new();
        let mut k: usize = 0;
        while k < self.edges.len()
            invariant
                k <= self.e_seq().len(),
                r@ == self.e_seq().subrange(0, k as int),
            decreases self.e_seq().len() - k,
        {
            r.push(self.edges[k]);
            proof {
                assert(r@ =~= self.e_seq().subrange(0, k as int + 1));
            }
            k += 1;
        }
        proof {
            assert(r@ =~= self.e_seq());
        }
        r
    }

    /// All output nodes with their attachments, ascending by id.
    pub fn outputs_iter(&self) -> (r: Vec<(OutputId, Option<Output>)>)
        ensures
            r@ == self.o_seq(),
    {
        let mut r: Vec<(OutputId, Option<Output>)> = Vec::new();
        let mut k: usize = 0;
        while k < self.outputs.len()
            invariant
                k <= self.o_seq().len(),
                r@ == self.o_seq().subrange(0, k as int),
            decreases self.o_seq().len() - k,
        {
            r.push(self.outputs[k]);
            proof {
                assert(r@ =~= self.o_seq().subrange(0, k as int + 1));
            }
            k += 1;
        }
        proof {
            assert(r@ =~= self.o_seq());
        }
        r
    }

    /// All transformation node ids, ascending.
    pub fn transforms_iter(&self) -> (r: Vec<TransformIdx>)
        ensures
            r@.len() == self.t_seq().len(),
            forall|k: int| 0 <= k < r@.len() ==> r@[k] == (#[trigger] self.t_seq()[k]).0,
    {
        let mut r: Vec<TransformIdx> = Vec::new();
        let mut k: usize = 0;
        while k < self.transforms.len()
            invariant
                k <= self.t_seq().len(),
                r@.len() == k,
                forall|j: int| 0 <= j < k ==> r@[j] == (#[trigger] self.t_seq()[j]).0,
            decreases self.t_seq().len() - k,
        {
            r.push(self.transforms[k].0);
            k += 1;
        }
        r
    }

    /// All links: each edge as a producer-to-input pair, then each
    /// attached sink as a producer-to-output-node pair.
    pub fn links_iter(&self) -> (r: Vec<(Output, InputSlot)>)
        ensures
            forall|o: Output, i: Input|
                r@.contains((o, InputSlot::Transform(i))) <==> self.e_seq().contains((o, i)),
            forall|o: Output, id: OutputId|
                r@.contains((o, InputSlot::Output(id))) <==> self.o_seq().contains((id, Some(o))),
    {
        let mut r: Vec<(Output, InputSlot)> = Vec::new();
        let mut k: usize = 0;
        while k < self.edges.len()
            invariant
                k <= self.e_seq().len(),
                r@.len() == k,
                forall|j: int|
                    0 <= j < k ==> r@[j] == (
                        (#[trigger] self.e_seq()[j]).0,
                        InputSlot::Transform(self.e_seq()[j].1),
                    ),
            decreases self.e_seq().len() - k,
        {
            r.push((self.edges[k].0, InputSlot::Transform(self.edges[k].1)));
            k += 1;
        }
        let ghost n_edges = r@.len();
        let mut m: usize = 0;
        while m < self.outputs.len()
            invariant
                m <= self.o_seq().len(),
                n_edges == self.e_seq().len(),
                r@.len() >= n_edges,
                forall|j: int|
                    0 <= j < n_edges ==> r@[j] == (
                        (#[trigger] self.e_seq()[j]).0,
                        InputSlot::Transform(self.e_seq()[j].1),
                    ),
                forall|j: int|
                    n_edges <= j < r@.len() ==> ((#[trigger] r@[j]).1 is Output && exists|b: int|
                        0 <= b < m && (#[trigger] self.o_seq()[b]).1 == Some(r@[j].0)
                            && self.o_seq()[b].0 == r@[j].1->Output_0),
                forall|b: int|
                    0 <= b < m ==> ((#[trigger] self.o_seq()[b]).1 matches Some(o) ==> r@.contains(
                        (o, InputSlot::Output(self.o_seq()[b].0)),
                    )),
            decreases self.o_seq().len() - m,
        {
            match &self.outputs[m].1 {
                Some(o) => {
                    let ghost before = r@;
                    r.push((*o, InputSlot::Output(self.outputs[m].0)));
                    proof {
                        assert forall|b: int|
                            0 <= b < m + 1 implies ((#[trigger] self.o_seq()[b]).1 matches Some(o2)
                            ==> r@.contains((o2, InputSlot::Output(self.o_seq()[b].0)))) by {
                            if b < m {
                                if self.o_seq()[b].1 is Some {
                                    let o2 = self.o_seq()[b].1->Some_0;
                                    let j = choose|j: int|
                                        0 <= j < before.len() && before[j] == (
                                            o2,
                                            InputSlot::Output(self.o_seq()[b].0),
                                        );
                                    assert(r@[j] == (o2, InputSlot::Output(self.o_seq()[b].0)));
                                }
                            } else {
                                assert(r@[r@.len() - 1] == (
                                    self.o_seq()[m as int].1->Some_0,
                                    InputSlot::Output(self.o_seq()[m as int].0),
                                ));
                            }
                        }
                    }
                },
                None => {},
            }
            m += 1;
        }
        proof {
            assert forall|o: Output, i: Input|
                r@.contains((o, InputSlot::Transform(i))) <==> self.e_seq().contains((o, i)) by {
                if r@.contains((o, InputSlot::Transform(i))) {
                    let j = choose|j: int|
                        0 <= j < r@.len() && r@[j] == (o, InputSlot::Transform(i));
                    assert(j < n_edges);
                    assert(self.e_seq()[j] == (o, i));
                }
                if self.e_seq().contains((o, i)) {
                    let j = choose|j: int| 0 <= j < self.e_seq().len() && self.e_seq()[j] == (o, i);
                    assert(r@[j] == (o, InputSlot::Transform(i)));
                }
            }
            assert forall|o: Output, id: OutputId|
                r@.contains((o, InputSlot::Output(id))) <==> self.o_seq().contains(
                (id, Some(o))) by {
                if r@.contains((o, InputSlot::Output(id))) {
                    let j = choose|j: int| 0 <= j < r@.len() && r@[j] == (o, InputSlot::Output(id));
                    if j < n_edges {
                        assert(r@[j] == (
                            self.e_seq()[j].0,
                            InputSlot::Transform(self.e_seq()[j].1),
                        ));
                    }
                    assert(j >= n_edges);
                    let b = choose|b: int|
                        0 <= b < self.o_seq().len() && (#[trigger] self.o_seq()[b]).1 == Some(
                            r@[j].0,
                        ) && self.o_seq()[b].0 == r@[j].1->Output_0;
                    assert(self.o_seq()[b] == (id, Some(o)));
                }
                if self.o_seq().contains((id, Some(o))) {
                    let b = choose|b: int|
                        0 <= b < self.o_seq().len() && self.o_seq()[b] == (id, Some(o));
                }
            }
        }
        r
    }
}

} // verus!
