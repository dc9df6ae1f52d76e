//! The memoized evaluator.
//!
//! Pulling an output node computes the subgraph it depends on,
//! caching every intermediate port result.  Only successes populate
//! the cache; a port whose cache already holds a value is returned as
//! a copy without running anything, so two consecutive pulls with no
//! intervening mutation yield the same value and the second runs no
//! algorithm.  The graph structure is never changed by evaluation.

use vstd::prelude::*;

use crate::dst::DSTError;
use crate::dst::Input;
use crate::dst::Output;
use crate::dst::OutputId;
use crate::dst::DST;
use crate::graph;
use crate::transform::AlgoData;
use crate::transform::FeedError;
use crate::transform::NamedAlgorithms;
use crate::transform::TransformationResult;
use crate::value::IOErr;
use crate::value::IOValue;

verus! {

/// Where an input port's value comes from during evaluation: the
/// output port driving it, or the instance's default value.
#[derive(Debug)]
pub enum InputSource {
    Driver(Output),
    Default(IOValue),
}

/// Yield the `n`-th per-output result of an invocation, if there is
/// one.
fn take_nth(res: TransformationResult, n: usize) -> (r: Option<Result<IOValue, IOErr>>)
    ensures
        n < res@.len() ==> r == Some(res@[n as int]),
        n >= res@.len() ==> r is None,
{
    let mut rest = res;
    let mut k: usize = 0;
    while k < n
        invariant
            k <= n,
            rest@ =~= res@.subrange(
                (if k as int <= res@.len() { k as int } else { res@.len() as int }),
                res@.len() as int,
            ),
        decreases n - k,
    {
        let step = rest.next();
        if step.is_none() {
            proof {
                assert(res@.len() <= k);
            }
            return None;
        }
        proof {
            assert((k as int) < res@.len());
            assert(rest@ =~= res@.subrange(k as int + 1, res@.len() as int));
        }
        k += 1;
    }
    let mut rest2 = rest;
    let out = rest2.next();
    proof {
        if n < res@.len() {
            assert(rest@[0] == res@[n as int]);
        } else {
            assert(rest@.len() == 0);
        }
    }
    out
}

/// Pick the algorithm's `n`-th per-output result.  A missing result
/// is a structural defect; a reported failure passes through
/// unmodified as `InnerComputeError`; a value is the outcome.
fn settle_nth(res: TransformationResult, n: usize) -> (r: Result<IOValue, DSTError>)
    ensures
        n >= res@.len() ==> (r matches Err(e) && e is ComputeError),
        n < res@.len() ==> match res@[n as int] {
            Ok(v) => r == Ok::<IOValue, DSTError>(v),
            Err(e) => r == Err::<IOValue, DSTError>(DSTError::InnerComputeError(e)),
        },
{
    match take_nth(res, n) {
        None => Err(DSTError::ComputeError("no nth output received from the algorithm".to_owned())),
        Some(Err(e)) => Err(DSTError::InnerComputeError(e)),
        Some(Ok(v)) => Ok(v),
    }
}

impl DST {
    /// A graph with the same structure as a well-formed graph is well
    /// formed, and every structural notion carries over.
    pub(crate) proof fn lemma_structure_preserved(a: DST, b: DST)
        requires
            a.wf(),
            b.same_structure(a),
        ensures
            b.wf(),
            forall|t: int| a.has_t(t) <==> b.has_t(t),
            forall|t: int| a.has_t(t) ==> b.t_index(t) == a.t_index(t),
            forall|t: int|
                a.has_t(t) ==> b.meta_data(t).t == a.meta_data(t).t && b.meta_data(
                    t,
                ).input_defaults == a.meta_data(t).input_defaults,
            forall|o: Output| a.valid_output(o) <==> b.valid_output(o),
            forall|i: Input| a.valid_input(i) <==> b.valid_input(i),
            b.dep_rel() == a.dep_rel(),
            b.tkey_set() == a.tkey_set(),
            forall|t: int| b.anc_card(t) == a.anc_card(t),
    {
        DST::lemma_same_keys(a, b);
        assert forall|t: int| b.has_t(t) implies a.has_t(t) by {
            let i = b.t_index(t);
            assert(a.t_seq()[i].0.0 == t);
        }
        assert forall|t: int| a.has_t(t) implies b.meta_data(t).t == a.meta_data(t).t
            && b.meta_data(t).input_defaults == a.meta_data(t).input_defaults && b.meta_data(
            t,
        ).cache.len() == a.meta_data(t).cache.len() by {
            let i = a.t_index(t);
        }
        DST::lemma_dep_rel_eq(a, b);
        assert forall|o: Output| a.valid_output(o) == b.valid_output(o) by {
            if a.has_t(o.t_idx.0 as int) {
            }
        }
        assert forall|i: Input| a.valid_input(i) == b.valid_input(i) by {
            if a.has_t(i.t_idx.0 as int) {
            }
        }
        assert(b.tkey_seq() =~= a.tkey_seq());
        assert forall|i: int| 0 <= i < b.t_seq().len() implies (
        #[trigger] b.t_seq()[i]).1.data().wf() by {
            assert(b.t_seq()[i].0 == a.t_seq()[i].0);
            assert(a.t_seq()[i].1.data().wf());
        }
        assert forall|k: int| 0 <= k < b.e_seq().len() implies b.valid_output(
            (#[trigger] b.e_seq()[k]).0,
        ) && b.valid_input(b.e_seq()[k].1) && b.output_type_of(b.e_seq()[k].0) == b.input_type_of(
            b.e_seq()[k].1,
        ) by {
            assert(a.valid_output(a.e_seq()[k].0));
            assert(a.valid_input(a.e_seq()[k].1));
        }
        assert forall|k: int| 0 <= k < b.o_seq().len() implies ((#[trigger] b.o_seq()[k]).1 matches Some(
            o,
        ) ==> b.valid_output(o)) by {
            if b.o_seq()[k].1 is Some {
                let o = b.o_seq()[k].1->Some_0;
                assert(a.valid_output(o));
            }
        }
        assert forall|i: int, j: int|
            0 <= i < j < b.t_seq().len() implies (#[trigger] b.t_seq()[i]).0.0 < (
        #[trigger] b.t_seq()[j]).0.0 by {
            assert(a.t_seq()[i].0.0 < a.t_seq()[j].0.0);
        }
        assert forall|i: int| 0 <= i < b.t_seq().len() implies (#[trigger] b.t_seq()[i]).0.0
            < b.next_t() by {
            assert(a.t_seq()[i].0.0 < a.next_t());
        }
        assert(b.wf());
    }

    /// Having the same structure is transitive.
    pub(crate) proof fn lemma_same_structure_trans(a: DST, b: DST, c: DST)
        requires
            b.same_structure(a),
            c.same_structure(b),
        ensures
            c.same_structure(a),
    {
        assert forall|i: int|
            0 <= i < c.t_seq().len() implies (#[trigger] c.t_seq()[i]).0 == (
        #[trigger] a.t_seq()[i]).0 && c.t_seq()[i].1.data().t == a.t_seq()[i].1.data().t
            && c.t_seq()[i].1.data().input_defaults == a.t_seq()[i].1.data().input_defaults
            && c.t_seq()[i].1.data().cache.len() == a.t_seq()[i].1.data().cache.len() by {
            assert(b.t_seq()[i].0 == a.t_seq()[i].0);
            assert(c.t_seq()[i].0 == b.t_seq()[i].0);
        }
    }

    /// Extending the caches is transitive across structure-preserving
    /// steps.
    pub(crate) proof fn lemma_cache_extends_trans(a: DST, b: DST, c: DST)
        requires
            a.wf(),
            b.same_structure(a),
            c.same_structure(b),
            b.cache_extends(a),
            c.cache_extends(b),
        ensures
            c.cache_extends(a),
    {
        DST::lemma_structure_preserved(a, b);
        assert forall|o: Output|
            a.valid_output(o) && a.cache_at(o) is Some implies c.cache_at(o) == a.cache_at(o) by {
            assert(b.valid_output(o));
            assert(b.cache_at(o) == a.cache_at(o));
        }
    }

    /// Filling empty slots only is transitive across
    /// structure-preserving steps.
    pub(crate) proof fn lemma_cache_monotone_trans(a: DST, b: DST, c: DST)
        requires
            a.wf(),
            b.same_structure(a),
            c.same_structure(b),
            b.cache_monotone(a),
            c.cache_monotone(b),
        ensures
            c.cache_monotone(a),
    {
        DST::lemma_structure_preserved(a, b);
        assert forall|o: Output|
            a.valid_output(o) implies c.cache_at(o) == a.cache_at(o) || (a.cache_at(o) is None
                && c.cache_at(o) is Some) by {
            assert(b.valid_output(o));
        }
    }

    /// Resolve an input port for evaluation: the driving producer
    /// when an edge feeds it, else the instance's default value; with
    /// neither, the missing-dependency defect.
    pub fn resolve_input(&self, inp: Input) -> (r: Result<InputSource, DSTError>)
        requires
            self.wf(),
            self.valid_input(inp),
        ensures
            self.input_driven(inp) ==> (r matches Ok(s) && (s matches InputSource::Driver(o)
                && self.e_seq().contains((o, inp)))),
            !self.input_driven(inp) ==> (self.meta_data(inp.t_idx.0 as int).input_defaults[
                inp.input_i as int] matches Some(d) ==> (r matches Ok(s) && (s matches
                InputSource::Default(v) && v@ == d))),
            !self.input_driven(inp) && self.meta_data(inp.t_idx.0 as int).input_defaults[
                inp.input_i as int] is None ==> (r matches Err(e) && e is ComputeError),
    {
        match self.find_driver(inp) {
            Some(o) => Ok(InputSource::Driver(o)),
            None => {
                match self.default_for(inp) {
                    Some(v) => Ok(InputSource::Default(v)),
                    None => Err(
                        DSTError::ComputeError("missing dependency, cannot compute".to_owned()),
                    ),
                }
            },
        }
    }

    /// Store a copy of a computed value in the cache slot of the port.
    fn write_cache<'v>(&mut self, output: Output, v: &'v IOValue)
        requires
            old(self).wf(),
            old(self).valid_output(output),
        ensures
            final(self).wf(),
            final(self).same_structure(*old(self)),
            final(self).cache_at(output) == Some(v@),
            forall|o: Output|
                old(self).valid_output(o) && o != output ==> final(self).cache_at(o) == old(
                    self,
                ).cache_at(o),
    {
        let i = match self.find_transform(output.t_idx) {
            Some(i) => i,
            None => {
                proof {
                    assert(false);
                }
                unreached()
            },
        };
        proof {
            self.lemma_t_index_unique(i as int);
        }
        let (id, mut m) = self.transforms.remove(i);
        m.cache.set(output.index(), Some(v.duplicate()));
        self.transforms.insert(i, (id, m));
        proof {
            let new = *self;
            let prev = *old(self);
            assert(new.t_seq() =~= prev.t_seq().update(i as int, (id, m)));
            assert(m.data().cache =~= prev.t_seq()[i as int].1.data().cache.update(
                output.output_i as int,
                Some(v@),
            ));
            assert(m.data().t == prev.t_seq()[i as int].1.data().t);
            assert(m.data().input_defaults == prev.t_seq()[i as int].1.data().input_defaults);
            assert(new.same_structure(prev)) by {
                assert forall|i2: int|
                    0 <= i2 < new.t_seq().len() implies (#[trigger] new.t_seq()[i2]).0 == (
                #[trigger] prev.t_seq()[i2]).0 && new.t_seq()[i2].1.data().t
                    == prev.t_seq()[i2].1.data().t && new.t_seq()[i2].1.data().input_defaults
                    == prev.t_seq()[i2].1.data().input_defaults
                    && new.t_seq()[i2].1.data().cache.len()
                    == prev.t_seq()[i2].1.data().cache.len() by {
                    if i2 != i as int {
                        assert(new.t_seq()[i2] == prev.t_seq()[i2]);
                    }
                }
            }
            DST::lemma_structure_preserved(prev, new);
            new.lemma_t_index_unique(i as int);
            assert(prev.t_index(output.t_idx.0 as int) == i as int);
            assert forall|o: Output|
                prev.valid_output(o) && o != output implies new.cache_at(o) == prev.cache_at(
                o,
            ) by {
                let t = o.t_idx.0 as int;
                let j = prev.t_index(t);
                if j != i as int {
                    assert(new.t_seq()[j] == prev.t_seq()[j]);
                } else {
                    assert(o.t_idx == output.t_idx);
                    assert(o.output_i != output.output_i);
                }
            }
        }
    }

    /// The default value for an input port, if one is set.
    fn default_for(&self, input: Input) -> (r: Option<IOValue>)
        requires
            self.wf(),
            self.valid_input(input),
        ensures
            r is Some <==> self.meta_data(input.t_idx.0 as int).input_defaults[
                input.input_i as int] is Some,
            r matches Some(v) ==> v@ == self.meta_data(input.t_idx.0 as int).input_defaults[
                input.input_i as int]->Some_0,
    {
        let i = match self.find_transform(input.t_idx) {
            Some(i) => i,
            None => {
                proof {
                    assert(false);
                }
                unreached()
            },
        };
        proof {
            self.lemma_t_index_unique(i as int);
            assert(self.t_seq()[i as int].1.data().wf());
        }
        match &self.transforms[i].1.input_defaults[input.index()] {
            Some(v) => Some(v.duplicate()),
            None => None,
        }
    }

    /// Evaluate one producer port, memoizing on success.
    ///
    /// The graph structure never changes; cache slots change only
    /// from empty to holding a value, and only at ports of nodes from
    /// which this port's node is reachable.  On failure the port's
    /// own slot is untouched and the error is an evaluation error,
    /// never a build or lookup one.  A port of a constant node with
    /// an empty slot always succeeds with the stored value.
    #[verifier::rlimit(100)]
    #[verifier::spinoff_prover]
    fn compute_port<A: NamedAlgorithms>(&mut self, output: Output) -> (r: Result<
        IOValue,
        DSTError,
    >)
        requires
            old(self).wf(),
            old(self).valid_output(output),
        ensures
            final(self).wf(),
            final(self).same_structure(*old(self)),
            final(self).cache_extends(*old(self)),
            final(self).cache_monotone(*old(self)),
            forall|o: Output|
                old(self).valid_output(o) && !graph::reach(
                    old(self).dep_rel(),
                    o.t_idx.0 as int,
                    output.t_idx.0 as int,
                ) ==> final(self).cache_at(o) == old(self).cache_at(o),
            old(self).cache_at(output) matches Some(c) ==> *final(self) == *old(self) && (
            r matches Ok(v) && v@ == c),
            r matches Ok(v) ==> final(self).cache_at(output) == Some(v@),
            r is Err ==> final(self).cache_at(output) == old(self).cache_at(output),
            r matches Err(e) ==> crate::dst::is_evaluation_error(e),
            old(self).meta_data(output.t_idx.0 as int).t.algorithm matches AlgoData::Constant(
                cvals,
            ) ==> (old(self).cache_at(output) is None ==> (r matches Ok(v) && v@ == cvals[
                output.output_i as int])),
        decreases self.anc_card(output.t_idx.0 as int),
    {
        let ghost entry = *old(self);
        let i = match self.find_transform(output.t_idx) {
            Some(i) => i,
            None => {
                proof {
                    assert(false);
                }
                unreached()
            },
        };
        proof {
            self.lemma_t_index_unique(i as int);
            assert(self.t_seq()[i as int].1.data().wf());
        }
        let cached = match &self.transforms[i].1.cache[output.index()] {
            Some(v) => Some(v.duplicate()),
            None => None,
        };
        match cached {
            Some(v) => {
                proof {
                    assert(entry.cache_at(output) == Some(v@));
                }
                return Ok(v);
            },
            None => {},
        }
        proof {
            assert(entry.cache_at(output) is None);
        }
        let n_inputs = self.transforms[i].1.transform().input.len();
        let mut args: Vec<IOValue> = Vec::new();
        let mut k: usize = 0;
        while k < n_inputs
            invariant
                entry == *old(self),
                entry.wf(),
                entry.valid_output(output),
                entry.cache_at(output) is None,
                self.wf(),
                self.same_structure(entry),
                self.cache_extends(entry),
                self.cache_monotone(entry),
                self.cache_at(output) is None,
                forall|o: Output|
                    entry.valid_output(o) && !graph::reach(
                        entry.dep_rel(),
                        o.t_idx.0 as int,
                        output.t_idx.0 as int,
                    ) ==> self.cache_at(o) == entry.cache_at(o),
                args@.len() == k,
                k <= n_inputs,
                n_inputs == entry.meta_data(output.t_idx.0 as int).t.input.len(),
            decreases n_inputs - k,
        {
            proof {
                DST::lemma_structure_preserved(entry, *self);
            }
            let inp = Input::new(output.t_idx, k);
            proof {
                assert(entry.valid_input(inp));
                assert(self.valid_input(inp));
            }
            let source = match self.resolve_input(inp) {
                Ok(source) => source,
                Err(e) => {
                    return Err(e);
                },
            };
            match source {
                InputSource::Driver(o2) => {
                    proof {
                        let cur = *self;
                        assert(cur.e_seq().contains((o2, inp)));
                        let j = choose|j: int|
                            0 <= j < cur.e_seq().len() && cur.e_seq()[j] == (o2, inp);
                        assert(cur.valid_output(o2));
                        assert(cur.dep(o2.t_idx.0 as int, output.t_idx.0 as int)) by {
                            assert(cur.e_seq()[j].0.t_idx.0 == o2.t_idx.0 && cur.e_seq()[
                                j].1.t_idx.0 == output.t_idx.0);
                        }
                        assert(cur.dep_rel().contains(
                            (o2.t_idx.0 as int, output.t_idx.0 as int),
                        ));
                        // the ancestor count strictly shrinks along the edge
                        broadcast use vstd::seq_lib::seq_to_set_is_finite;

                        cur.lemma_tkey_set_contains(o2.t_idx.0 as int);
                        cur.lemma_tkey_set_contains(output.t_idx.0 as int);
                        graph::lemma_ancestors_strictly_decrease(
                            cur.dep_rel(),
                            cur.tkey_set(),
                            o2.t_idx.0 as int,
                            output.t_idx.0 as int,
                        );
                        assert(cur.anc_card(o2.t_idx.0 as int) < entry.anc_card(
                            output.t_idx.0 as int,
                        ));
                        assert(self.anc_card(o2.t_idx.0 as int) < entry.anc_card(
                            output.t_idx.0 as int,
                        ));
                    }
                    let ghost before = *self;
                    let dep_result = self.compute_port::<A>(o2);
                    proof {
                        DST::lemma_same_structure_trans(entry, before, *self);
                        DST::lemma_cache_extends_trans(entry, before, *self);
                        DST::lemma_cache_monotone_trans(entry, before, *self);
                        DST::lemma_structure_preserved(entry, before);
                        // slots of nodes that do not reach this one are untouched:
                        // they cannot reach the dependency either
                        assert forall|o: Output|
                            entry.valid_output(o) && !graph::reach(
                                entry.dep_rel(),
                                o.t_idx.0 as int,
                                output.t_idx.0 as int,
                            ) implies self.cache_at(o) == entry.cache_at(o) by {
                            assert(before.valid_output(o));
                            if graph::reach(
                                before.dep_rel(),
                                o.t_idx.0 as int,
                                o2.t_idx.0 as int,
                            ) {
                                graph::lemma_reach_step(
                                    entry.dep_rel(),
                                    o.t_idx.0 as int,
                                    o2.t_idx.0 as int,
                                    output.t_idx.0 as int,
                                );
                            }
                            assert(self.cache_at(o) == before.cache_at(o));
                        }
                        // in particular this port's own slot stays empty
                        assert(self.cache_at(output) is None) by {
                            if graph::reach(
                                before.dep_rel(),
                                output.t_idx.0 as int,
                                o2.t_idx.0 as int,
                            ) {
                                let n = choose|n: nat|
                                    graph::reach_n(
                                        entry.dep_rel(),
                                        output.t_idx.0 as int,
                                        o2.t_idx.0 as int,
                                        n,
                                    );
                                assert(graph::reach_n(
                                    entry.dep_rel(),
                                    o2.t_idx.0 as int,
                                    output.t_idx.0 as int,
                                    1,
                                )) by {
                                    assert(graph::reach_n(
                                        entry.dep_rel(),
                                        output.t_idx.0 as int,
                                        output.t_idx.0 as int,
                                        0,
                                    ));
                                }
                                graph::lemma_reach_n_trans(
                                    entry.dep_rel(),
                                    output.t_idx.0 as int,
                                    o2.t_idx.0 as int,
                                    output.t_idx.0 as int,
                                    n,
                                    1,
                                );
                                assert(false);
                            }
                            assert(self.cache_at(output) == before.cache_at(output));
                        }
                    }
                    match dep_result {
                        Ok(v) => {
                            args.push(v);
                        },
                        Err(e) => {
                            return Err(e);
                        },
                    }
                },
                InputSource::Default(v) => {
                    args.push(v);
                },
            }
            k += 1;
        }
        proof {
            DST::lemma_structure_preserved(entry, *self);
        }
        // feed the collected values in declared order and invoke
        let i2 = match self.find_transform(output.t_idx) {
            Some(i2) => i2,
            None => {
                proof {
                    assert(false);
                }
                unreached()
            },
        };
        let mut caller = self.transforms[i2].1.transform().start();
        proof {
            assert(caller.trans() == entry.meta_data(output.t_idx.0 as int).t);
        }
        let mut f: usize = 0;
        let n_args = args.len();
        while f < n_args
            invariant
                entry == *old(self),
                entry.wf(),
                entry.valid_output(output),
                entry.cache_at(output) is None,
                self.wf(),
                self.same_structure(entry),
                self.cache_extends(entry),
                self.cache_monotone(entry),
                self.cache_at(output) is None,
                forall|o: Output|
                    entry.valid_output(o) && !graph::reach(
                        entry.dep_rel(),
                        o.t_idx.0 as int,
                        output.t_idx.0 as int,
                    ) ==> self.cache_at(o) == entry.cache_at(o),
                f <= n_args,
                args@.len() == n_args,
                n_args == entry.meta_data(output.t_idx.0 as int).t.input.len(),
                caller.trans() == entry.meta_data(output.t_idx.0 as int).t,
                caller.fed().len() == f,
            decreases n_args - f,
        {
            proof {
                assert(entry.meta_data(output.t_idx.0 as int).wf());
            }
            let fed = caller.feed(args[f].duplicate());
            match fed {
                Ok(()) => {},
                Err(FeedError::WrongType) => {
                    return Err(
                        DSTError::IncompatibleTypes(
                            "an algorithm produced a value of the wrong type".to_owned(),
                        ),
                    );
                },
                Err(FeedError::ArityMismatch) => {
                    return Err(DSTError::ComputeError("too many computed inputs".to_owned()));
                },
            }
            f += 1;
        }
        proof {
            assert(entry.meta_data(output.t_idx.0 as int).wf());
        }
        proof {
            assert(caller.fed().len() >= caller.trans().input.len());
        }
        let invoked = match caller.call::<A>() {
            Ok(res) => res,
            Err(_) => {
                return Err(DSTError::ComputeError("not all inputs were fed".to_owned()));
            },
        };
        proof {
            let md = entry.meta_data(output.t_idx.0 as int);
            assert(md.wf());
            if md.t.algorithm is Constant {
                let cvals = md.t.algorithm->Constant_0;
                assert(invoked@.len() == cvals.len());
                assert((output.output_i as int) < cvals.len());
                assert(invoked@[output.output_i as int] matches Ok(v) && v@ == cvals[
                    output.output_i as int]);
            }
        }
        let settled = settle_nth(invoked, output.index());
        match settled {
            Err(e) => {
                proof {
                    assert(entry.meta_data(output.t_idx.0 as int).wf());
                }
                Err(e)
            },
            Ok(v) => {
                let ghost before = *self;
                proof {
                    DST::lemma_structure_preserved(entry, before);
                }
                self.write_cache(output, &v);
                proof {
                    DST::lemma_same_structure_trans(entry, before, *self);
                    assert forall|o: Output|
                        entry.valid_output(o) && entry.cache_at(o) is Some implies self.cache_at(o)
                            == entry.cache_at(o) by {
                        assert(before.valid_output(o));
                        assert(before.cache_at(o) == entry.cache_at(o));
                        assert(o != output);
                    }
                    assert forall|o: Output|
                        entry.valid_output(o) implies self.cache_at(o) == entry.cache_at(o) || (
                    entry.cache_at(o) is None && self.cache_at(o) is Some) by {
                        assert(before.valid_output(o));
                        if o != output {
                            assert(self.cache_at(o) == before.cache_at(o));
                        }
                    }
                    assert forall|o: Output|
                        entry.valid_output(o) && !graph::reach(
                            entry.dep_rel(),
                            o.t_idx.0 as int,
                            output.t_idx.0 as int,
                        ) implies self.cache_at(o) == entry.cache_at(o) by {
                        assert(before.valid_output(o));
                        assert(o != output) by {
                            assert(graph::reach_n(
                                entry.dep_rel(),
                                output.t_idx.0 as int,
                                output.t_idx.0 as int,
                                0,
                            ));
                        }
                        assert(self.cache_at(o) == before.cache_at(o));
                    }
                }
                Ok(v)
            },
        }
    }

    /// Pull the value of an output node.
    ///
    /// `MissingOutputID` comes back exactly when the node is unknown
    /// or unattached; otherwise the attached port is evaluated with
    /// memoization and the error, if any, is an evaluation error.
    /// The graph structure never changes; cache slots change only
    /// from empty to holding a value, and only at ports of nodes in
    /// the sink's dependency cone.  When the port's cache already
    /// holds a value, the graph is left untouched and a copy of that
    /// value comes back; on success the returned value is what the
    /// cache then holds; on failure the port's slot is unchanged.  A
    /// sink attached to a constant node's port always computes.
    pub fn compute<A: NamedAlgorithms>(&mut self, output_id: &OutputId) -> (r: Result<
        IOValue,
        DSTError,
    >)
        requires
            old(self).wf(),
        ensures
            final(self).wf(),
            final(self).same_structure(*old(self)),
            final(self).cache_extends(*old(self)),
            final(self).cache_monotone(*old(self)),
            !(old(self).has_oid(output_id.0 as int) && old(self).sink(output_id.0 as int) is Some)
                ==> (r matches Err(e) && e is MissingOutputID && *final(self) == *old(self)),
            old(self).has_oid(output_id.0 as int) ==> (old(self).sink(
                output_id.0 as int,
            ) matches Some(o) ==> {
                &&& (old(self).cache_at(o) matches Some(c) ==> *final(self) == *old(self) && (
                r matches Ok(v) && v@ == c))
                &&& (r matches Ok(v) ==> final(self).cache_at(o) == Some(v@))
                &&& (r is Err ==> final(self).cache_at(o) == old(self).cache_at(o))
                &&& (r matches Err(e) ==> crate::dst::is_evaluation_error(e))
                &&& (forall|o2: Output|
                    old(self).valid_output(o2) && !graph::reach(
                        old(self).dep_rel(),
                        o2.t_idx.0 as int,
                        o.t_idx.0 as int,
                    ) ==> final(self).cache_at(o2) == old(self).cache_at(o2))
                &&& (old(self).meta_data(o.t_idx.0 as int).t.algorithm matches
                AlgoData::Constant(cvals) ==> (old(self).cache_at(o) is None ==> (r matches Ok(v)
                    && v@ == cvals[o.output_i as int])))
            }),
    {
        let i = match self.find_output_id(*output_id) {
            None => {
                return Err(DSTError::MissingOutputID("output node not found".to_owned()));
            },
            Some(i) => i,
        };
        proof {
            self.lemma_oid_index_unique(i as int);
        }
        let target = match &self.outputs[i].1 {
            None => {
                return Err(DSTError::MissingOutputID("output node is not attached".to_owned()));
            },
            Some(o) => *o,
        };
        proof {
            assert(self.sink(output_id.0 as int) == Some(target));
            assert(self.valid_output(target));
        }
        self.compute_port::<A>(target)
    }
}

} // verus!
