//! Typed transformations and the caller protocol.
//!
//! A [`Transformation`] is an immutable descriptor: a stable name, an
//! ordered list of input type tags (each with an optional default value
//! of matching type), an ordered list of output type tags, and an
//! algorithm.  The algorithm is either a named function the host runs
//! through [`NamedAlgorithms`], or a constant carrying precomputed
//! output values.

use vstd::prelude::*;

use crate::value::IOErr;
use crate::value::IOType;
use crate::value::IOValue;
use crate::value::TypeContent;
use crate::value::ValueData;
use crate::value::duplicate_option_value;

verus! {

/// How a transformation computes: a named pure function run by the
/// host, or a stored list of constant outputs.
#[derive(Debug, Clone, PartialEq)]
pub enum Algorithm {
    /// A named pure function; the name under [`Transformation::name`]
    /// selects it in the host's registry.
    Function,
    /// Precomputed output values, yielded directly.
    Constant(Vec<IOValue>),
}

/// The mathematical model of an [`Algorithm`].
pub enum AlgoData {
    Function,
    Constant(Seq<ValueData>),
}

impl View for Algorithm {
    type V = AlgoData;

    open spec fn view(&self) -> AlgoData {
        match self {
            Algorithm::Function => AlgoData::Function,
            Algorithm::Constant(c) => AlgoData::Constant(c.deep_view()),
        }
    }
}

impl DeepView for Algorithm {
    type V = AlgoData;

    open spec fn deep_view(&self) -> AlgoData {
        self.view()
    }
}

/// A pure, typed function descriptor.
#[derive(Debug, Clone, PartialEq)]
pub struct Transformation {
    /// Stable name, unique within a registry.
    pub name: String,
    /// Input type tags in declared order, each with an optional default
    /// value of matching type.
    pub input: Vec<(IOType, Option<IOValue>)>,
    /// Output type tags in declared order; never empty.
    pub output: Vec<IOType>,
    /// The algorithm.
    pub algorithm: Algorithm,
}

/// The mathematical model of a [`Transformation`].
pub struct TransData {
    pub name: Seq<char>,
    pub input: Seq<(IOType, Option<ValueData>)>,
    pub output: Seq<IOType>,
    pub algorithm: AlgoData,
}

impl TransData {
    /// Well-formedness of a descriptor: at least one output, defaults
    /// match their declared input tags, and a constant's stored values
    /// match the declared outputs while it declares no inputs.
    pub open spec fn valid(self) -> bool {
        &&& self.output.len() >= 1
        &&& forall|i: int|
            0 <= i < self.input.len() ==> (#[trigger] self.input[i].1 matches Some(d) ==> d.tag()
                == self.input[i].0)
        &&& (self.algorithm matches AlgoData::Constant(c) ==> {
            &&& self.input.len() == 0
            &&& c.len() == self.output.len()
            &&& forall|i: int| 0 <= i < c.len() ==> c[i].tag() == self.output[i]
        })
    }
}

impl View for Transformation {
    type V = TransData;

    open spec fn view(&self) -> TransData {
        TransData {
            name: self.name@,
            input: self.input.deep_view(),
            output: self.output@,
            algorithm: self.algorithm@,
        }
    }
}

impl DeepView for Transformation {
    type V = TransData;

    open spec fn deep_view(&self) -> TransData {
        self.view()
    }
}

/// Copy a list of type tags.
pub fn clone_types(v: &Vec<IOType>) -> (r: Vec<IOType>)
    ensures
        r@ == v@,
{
    let mut r: Vec<IOType> = Vec::new();
    let mut i: usize = 0;
    while i < v.len()
        invariant
            i <= v.len(),
            r@ == v@.subrange(0, i as int),
        decreases v.len() - i,
    {
        r.push(v[i]);
        i += 1;
        proof {
            assert(r@ =~= v@.subrange(0, i as int));
        }
    }
    proof {
        assert(r@ =~= v@);
    }
    r
}

/// Copy a list of declared inputs with their default values.
pub fn clone_inputs(v: &Vec<(IOType, Option<IOValue>)>) -> (r: Vec<(IOType, Option<IOValue>)>)
    ensures
        r.deep_view() == v.deep_view(),
{
    let mut r: Vec<(IOType, Option<IOValue>)> = Vec::new();
    let mut i: usize = 0;
    while i < v.len()
        invariant
            i <= v.len(),
            r@.len() == i,
            forall|k: int| 0 <= k < i ==> r@[k].deep_view() == v@[k].deep_view(),
        decreases v.len() - i,
    {
        let entry = &v[i];
        r.push((entry.0, duplicate_option_value(&entry.1)));
        i += 1;
    }
    proof {
        assert forall|k: int| 0 <= k < v@.len() implies r.deep_view()[k] == v.deep_view()[k] by {}
        assert(r.deep_view() =~= v.deep_view());
    }
    r
}

/// Copy a list of values.
pub fn clone_values(v: &Vec<IOValue>) -> (r: Vec<IOValue>)
    ensures
        r.deep_view() == v.deep_view(),
{
    let mut r: Vec<IOValue> = Vec::new();
    let mut i: usize = 0;
    while i < v.len()
        invariant
            i <= v.len(),
            r@.len() == i,
            forall|k: int| 0 <= k < i ==> r@[k]@ == v@[k]@,
        decreases v.len() - i,
    {
        r.push(v[i].duplicate());
        i += 1;
    }
    proof {
        assert forall|k: int| 0 <= k < v@.len() implies r.deep_view()[k] == v.deep_view()[k] by {}
        assert(r.deep_view() =~= v.deep_view());
    }
    r
}

impl Algorithm {
    /// Copy an algorithm; the copy models to the same data.
    pub fn duplicate(&self) -> (r: Algorithm)
        ensures
            r@ == self@,
    {
        match self {
            Algorithm::Function => Algorithm::Function,
            Algorithm::Constant(c) => Algorithm::Constant(clone_values(c)),
        }
    }
}

impl Transformation {
    /// Copy a descriptor; the copy models to the same data.
    pub fn duplicate(&self) -> (r: Transformation)
        ensures
            r@ == self@,
    {
        Transformation {
            name: self.name.clone(),
            input: clone_inputs(&self.input),
            output: clone_types(&self.output),
            algorithm: self.algorithm.duplicate(),
        }
    }

    /// Begin an invocation in the feeding state.
    pub fn start(&self) -> (c: TransformationCaller)
        ensures
            c.trans() == self@,
            c.fed() == Seq::<ValueData>::empty(),
    {
        TransformationCaller { t: self.duplicate(), input: Vec::new() }
    }

    /// Whether the transform has an `output_i`-th output.
    pub fn output_exists(&self, output_i: usize) -> (r: bool)
        ensures
            r == (output_i < self@.output.len()),
    {
        output_i < self.output.len()
    }

    /// Whether the transform has an `input_i`-th input.
    pub fn input_exists(&self, input_i: usize) -> (r: bool)
        ensures
            r == (input_i < self@.input.len()),
    {
        input_i < self.input.len()
    }

    /// The `output_i`-th output type tag.
    pub fn nth_output_type(&self, output_i: usize) -> (r: IOType)
        requires
            output_i < self@.output.len(),
        ensures
            r == self@.output[output_i as int],
    {
        self.output[output_i]
    }

    /// The `input_i`-th input type tag.
    pub fn nth_input_type(&self, input_i: usize) -> (r: IOType)
        requires
            input_i < self@.input.len(),
        ensures
            r == self@.input[input_i as int].0,
    {
        self.input[input_i].0
    }
}

/// The descriptor a list of constant values reconstructs: no inputs,
/// one output per value, tagged by the values themselves.
pub open spec fn constant_descriptor(c: Seq<ValueData>) -> TransData {
    TransData {
        name: "const"@,
        input: Seq::empty(),
        output: Seq::new(c.len(), |i: int| c[i].tag()),
        algorithm: AlgoData::Constant(c),
    }
}

impl Transformation {
    /// A constant transform holding the given output values.
    pub fn new_constant(values: Vec<IOValue>) -> (t: Transformation)
        ensures
            t@ == constant_descriptor(values.deep_view()),
            t@.valid() || values.deep_view().len() == 0,
    {
        let mut output: Vec<IOType> = Vec::new();
        let mut i: usize = 0;
        while i < values.len()
            invariant
                i <= values@.len(),
                output@.len() == i,
                forall|k: int| 0 <= k < i ==> output@[k] == (#[trigger] values.deep_view()[k]).tag(),
            decreases values@.len() - i,
        {
            output.push(values[i].get_type());
            i += 1;
        }
        let t = Transformation {
            name: "const".to_owned(),
            input: Vec::new(),
            output,
            algorithm: Algorithm::Constant(values),
        };
        proof {
            assert(t@.output =~= constant_descriptor(t@.algorithm->Constant_0).output);
            assert(t@.input =~= constant_descriptor(t@.algorithm->Constant_0).input);
        }
        t
    }

    /// Whether the descriptor is well formed.
    pub fn is_valid(&self) -> (r: bool)
        ensures
            r == self@.valid(),
    {
        if self.output.len() == 0 {
            return false;
        }
        let mut i: usize = 0;
        while i < self.input.len()
            invariant
                i <= self@.input.len(),
                self@.output.len() >= 1,
                forall|k: int|
                    0 <= k < i ==> (#[trigger] self@.input[k].1 matches Some(d) ==> d.tag()
                        == self@.input[k].0),
            decreases self@.input.len() - i,
        {
            proof {
                assert(self@.input[i as int] == self.input@[i as int].deep_view());
            }
            match &self.input[i].1 {
                Some(d) => {
                    if d.get_type() != self.input[i].0 {
                        proof {
                            assert(self@.input[i as int].1 == Some(d@));
                            assert(self@.input[i as int].0 == self.input@[i as int].0);
                        }
                        return false;
                    }
                },
                None => {},
            }
            i += 1;
        }
        match &self.algorithm {
            Algorithm::Function => true,
            Algorithm::Constant(c) => {
                if self.input.len() != 0 {
                    return false;
                }
                if c.len() != self.output.len() {
                    return false;
                }
                let mut j: usize = 0;
                while j < c.len()
                    invariant
                        j <= c@.len(),
                        self@.algorithm matches AlgoData::Constant(cv) && cv == c.deep_view(),
                        c@.len() == self@.output.len(),
                        self@.input.len() == 0,
                        self@.output.len() >= 1,
                        forall|k: int|
                            0 <= k < i ==> (#[trigger] self@.input[k].1 matches Some(d) ==> d.tag()
                                == self@.input[k].0),
                        forall|k: int|
                            0 <= k < j ==> (#[trigger] c.deep_view()[k]).tag() == self@.output[k],
                    decreases c@.len() - j,
                {
                    if c[j].get_type() != self.output[j] {
                        return false;
                    }
                    j += 1;
                }
                true
            },
        }
    }
}

/// Why feeding or calling was refused.
#[derive(Copy, Clone, Debug, PartialEq, Eq, Structural)]
pub enum FeedError {
    /// A fed value's tag differs from the declared input tag.
    WrongType,
    /// More values fed than declared, or a call before all were fed.
    ArityMismatch,
}

/// An invocation being fed its inputs in declared order.
pub struct TransformationCaller {
    t: Transformation,
    input: Vec<IOValue>,
}

impl TransformationCaller {
    /// The descriptor this invocation runs.
    pub closed spec fn trans(self) -> TransData {
        self.t@
    }

    /// The values fed so far, in order.
    pub closed spec fn fed(self) -> Seq<ValueData> {
        self.input.deep_view()
    }

    /// Feed the next input by value.  The tag must equal the declared
    /// tag of the next input in order.
    pub fn feed(&mut self, input: IOValue) -> (r: Result<(), FeedError>)
        ensures
            final(self).trans() == old(self).trans(),
            old(self).fed().len() >= old(self).trans().input.len() ==> r == Err::<(),
                FeedError,
            >(FeedError::ArityMismatch) && final(self).fed() == old(self).fed(),
            old(self).fed().len() < old(self).trans().input.len() && input@.tag() != old(
                self,
            ).trans().input[old(self).fed().len() as int].0 ==> r == Err::<(),
                FeedError,
            >(FeedError::WrongType) && final(self).fed() == old(self).fed(),
            old(self).fed().len() < old(self).trans().input.len() && input@.tag() == old(
                self,
            ).trans().input[old(self).fed().len() as int].0 ==> r == Ok::<(), FeedError>(())
                && final(self).fed() == old(self).fed().push(input@),
    {
        if self.input.len() >= self.t.input.len() {
            return Err(FeedError::ArityMismatch);
        }
        let expected = self.t.input[self.input.len()].0;
        if input.get_type() != expected {
            Err(FeedError::WrongType)
        } else {
            self.input.push(input);
            proof {
                assert(self.input.deep_view() =~= old(self).input.deep_view().push(input@));
            }
            Ok(())
        }
    }

    /// Feed the next input from a reference, copying it.
    pub fn feed_ref(&mut self, input: &IOValue) -> (r: Result<(), FeedError>)
        ensures
            final(self).trans() == old(self).trans(),
            old(self).fed().len() >= old(self).trans().input.len() ==> r == Err::<(),
                FeedError,
            >(FeedError::ArityMismatch) && final(self).fed() == old(self).fed(),
            old(self).fed().len() < old(self).trans().input.len() && input@.tag() != old(
                self,
            ).trans().input[old(self).fed().len() as int].0 ==> r == Err::<(),
                FeedError,
            >(FeedError::WrongType) && final(self).fed() == old(self).fed(),
            old(self).fed().len() < old(self).trans().input.len() && input@.tag() == old(
                self,
            ).trans().input[old(self).fed().len() as int].0 ==> r == Ok::<(), FeedError>(())
                && final(self).fed() == old(self).fed().push(input@),
    {
        if self.input.len() >= self.t.input.len() {
            return Err(FeedError::ArityMismatch);
        }
        let expected = self.t.input[self.input.len()].0;
        if input.get_type() != expected {
            Err(FeedError::WrongType)
        } else {
            self.input.push(input.duplicate());
            proof {
                assert(self.input.deep_view() =~= old(self).input.deep_view().push(input@));
            }
            Ok(())
        }
    }

    /// Invoke the algorithm once exactly the declared number of inputs
    /// was fed.  A constant yields its stored outputs; a function is
    /// run by the host `A`.
    pub fn call<A: NamedAlgorithms>(self) -> (r: Result<TransformationResult, FeedError>)
        ensures
            self.fed().len() < self.trans().input.len() ==> r == Err::<TransformationResult,
                FeedError,
            >(FeedError::ArityMismatch),
            self.fed().len() >= self.trans().input.len() ==> (r matches Ok(res) && (
            self.trans().algorithm matches AlgoData::Constant(c) ==> res@.len() == c.len() && forall|
                i: int,
            |
                0 <= i < c.len() ==> (#[trigger] res@[i] matches Ok(v) && v@ == c[i]))),
    {
        if self.input.len() < self.t.input.len() {
            return Err(FeedError::ArityMismatch);
        }
        match self.t.algorithm {
            Algorithm::Constant(c) => {
                let mut output: Vec<Result<IOValue, IOErr>> = Vec::new();
                let mut i: usize = 0;
                while i < c.len()
                    invariant
                        i <= c.len(),
                        output@.len() == i,
                        forall|k: int|
                            0 <= k < i ==> (#[trigger] output@[k] matches Ok(v) && v@
                                == c.deep_view()[k]),
                    decreases c.len() - i,
                {
                    output.push(Ok(c[i].duplicate()));
                    i += 1;
                }
                Ok(TransformationResult { output })
            },
            Algorithm::Function => {
                let output = A::run_algorithm(self.t.name.as_str(), self.input);
                Ok(TransformationResult { output })
            },
        }
    }
}

/// The per-output results of one invocation, yielded in declared order.
pub struct TransformationResult {
    output: Vec<Result<IOValue, IOErr>>,
}

impl View for TransformationResult {
    type V = Seq<Result<IOValue, IOErr>>;

    closed spec fn view(&self) -> Seq<Result<IOValue, IOErr>> {
        self.output@
    }
}

impl TransformationResult {
    /// Yield the next per-output result, front first.
    pub fn next(&mut self) -> (r: Option<Result<IOValue, IOErr>>)
        ensures
            old(self)@.len() == 0 ==> r is None && final(self)@ == old(self)@,
            old(self)@.len() > 0 ==> r == Some(old(self)@[0]) && final(self)@ == old(
                self,
            )@.drop_first(),
    {
        if self.output.len() == 0 {
            None
        } else {
            let v = self.output.remove(0);
            proof {
                assert(self.output@ =~= old(self).output@.drop_first());
            }
            Some(v)
        }
    }
}

/// The host's transform registry and algorithm runner.
///
/// The registry is a process-wide lookup from name to descriptor,
/// constructed once at startup by the host and immutable thereafter;
/// `run_algorithm` runs the named pure function on values fed in
/// declared order.  The engine states nothing of the results: every
/// function that consumes them is verified for every possible outcome.
pub trait NamedAlgorithms: Sized {
    /// Look a transform up by name.
    fn get_transform(name: &str) -> Option<Transformation>;

    /// Run the named algorithm on the given inputs, yielding one result
    /// per declared output.
    fn run_algorithm(name: &str, inputs: Vec<IOValue>) -> Vec<Result<IOValue, IOErr>>;
}

} // verus!
