//! The domain value variant and its type tag.
//!
//! Values are a closed sum type.  Every value carries a type tag derived
//! purely from its variant; two tags are compatible iff they are equal.
//! Floating-point samples and opaque file handles are carried as plain
//! integers (IEEE-754 bit patterns, resp. handle numbers) so that the
//! engine can move them around without interpreting them; hosts convert
//! at the boundary.

use vstd::prelude::*;

verus! {

/// The type tag of a value: one tag per variant of [`IOValue`].
#[derive(Copy, Clone, Debug, PartialEq, Eq, Structural)]
pub enum IOType {
    Integer,
    Float,
    Str,
    Fits,
    Image1d,
    Image2d,
    Image3d,
}

impl DeepView for IOType {
    type V = IOType;

    open spec fn deep_view(&self) -> IOType {
        *self
    }
}

/// A domain value.
///
/// `Float` holds the IEEE-754 bit pattern of a scalar sample; the image
/// variants hold bit patterns likewise.  `Fits` holds an opaque handle
/// number minted by the host for an open file.
#[derive(Debug, Clone, PartialEq)]
pub enum IOValue {
    Integer(i64),
    Float(u64),
    Str(String),
    Fits(u64),
    Image1d(Vec<u64>),
    Image2d(Vec<Vec<u64>>),
    Image3d(Vec<Vec<Vec<u64>>>),
}

/// The mathematical model of an [`IOValue`].
pub enum ValueData {
    Integer(int),
    Float(u64),
    Str(Seq<char>),
    Fits(u64),
    Image1d(Seq<u64>),
    Image2d(Seq<Seq<u64>>),
    Image3d(Seq<Seq<Seq<u64>>>),
}

impl ValueData {
    /// The tag of a modelled value, derived purely from its variant.
    pub open spec fn tag(self) -> IOType {
        match self {
            ValueData::Integer(_) => IOType::Integer,
            ValueData::Float(_) => IOType::Float,
            ValueData::Str(_) => IOType::Str,
            ValueData::Fits(_) => IOType::Fits,
            ValueData::Image1d(_) => IOType::Image1d,
            ValueData::Image2d(_) => IOType::Image2d,
            ValueData::Image3d(_) => IOType::Image3d,
        }
    }
}

impl View for IOValue {
    type V = ValueData;

    open spec fn view(&self) -> ValueData {
        match self {
            IOValue::Integer(i) => ValueData::Integer(*i as int),
            IOValue::Float(b) => ValueData::Float(*b),
            IOValue::Str(s) => ValueData::Str(s@),
            IOValue::Fits(h) => ValueData::Fits(*h),
            IOValue::Image1d(v) => ValueData::Image1d(v@),
            IOValue::Image2d(v) => ValueData::Image2d(v.deep_view()),
            IOValue::Image3d(v) => ValueData::Image3d(v.deep_view()),
        }
    }
}

impl DeepView for IOValue {
    type V = ValueData;

    open spec fn deep_view(&self) -> ValueData {
        self.view()
    }
}

/// What a value's type tells about payloads: a trait the host's value
/// types also satisfy; the engine implements it for [`IOValue`].
pub trait TypeContent {
    type Type;

    fn get_type(&self) -> Self::Type;
}

impl TypeContent for IOValue {
    type Type = IOType;

    fn get_type(&self) -> (t: IOType)
        ensures
            t == self@.tag(),
    {
        match self {
            IOValue::Integer(_) => IOType::Integer,
            IOValue::Float(_) => IOType::Float,
            IOValue::Str(_) => IOType::Str,
            IOValue::Fits(_) => IOType::Fits,
            IOValue::Image1d(_) => IOType::Image1d,
            IOValue::Image2d(_) => IOType::Image2d,
            IOValue::Image3d(_) => IOType::Image3d,
        }
    }
}

/// Copy a vector of samples; the copy models to the same sequence.
pub fn clone_samples(v: &Vec<u64>) -> (r: Vec<u64>)
    ensures
        r@ == v@,
{
    let mut r: Vec<u64> = Vec::new();
    let mut i: usize = 0;
    while i < v.len()
        invariant
            i <= v.len(),
            r@ == v@.subrange(0, i as int),
        decreases v.len() - i,
    {
        r.push(v[i]);
        i += 1;
    }
    proof {
        assert(r@ =~= v@);
    }
    r
}

/// Copy a two-dimensional image plane by plane.
pub fn clone_image2d(v: &Vec<Vec<u64>>) -> (r: Vec<Vec<u64>>)
    ensures
        r.deep_view() == v.deep_view(),
{
    let mut r: Vec<Vec<u64>> = Vec::new();
    let mut i: usize = 0;
    while i < v.len()
        invariant
            i <= v.len(),
            r@.len() == i,
            forall|k: int| 0 <= k < i ==> r@[k]@ == v@[k]@,
        decreases v.len() - i,
    {
        r.push(clone_samples(&v[i]));
        i += 1;
    }
    proof {
        assert forall|k: int| 0 <= k < v@.len() implies r.deep_view()[k] == v.deep_view()[k] by {
            assert(r@[k].deep_view() =~= r@[k]@);
            assert(v@[k].deep_view() =~= v@[k]@);
        }
        assert(r.deep_view() =~= v.deep_view());
    }
    r
}

/// Copy a three-dimensional image frame by frame.
pub fn clone_image3d(v: &Vec<Vec<Vec<u64>>>) -> (r: Vec<Vec<Vec<u64>>>)
    ensures
        r.deep_view() == v.deep_view(),
{
    let mut r: Vec<Vec<Vec<u64>>> = Vec::new();
    let mut i: usize = 0;
    while i < v.len()
        invariant
            i <= v.len(),
            r@.len() == i,
            forall|k: int| 0 <= k < i ==> r@[k].deep_view() == v@[k].deep_view(),
        decreases v.len() - i,
    {
        r.push(clone_image2d(&v[i]));
        i += 1;
    }
    proof {
        assert forall|k: int| 0 <= k < v@.len() implies r.deep_view()[k] == v.deep_view()[k] by {
        }
        assert(r.deep_view() =~= v.deep_view());
    }
    r
}

impl IOValue {
    /// Copy a value; the copy models to the same [`ValueData`].
    pub fn duplicate(&self) -> (r: IOValue)
        ensures
            r@ == self@,
    {
        match self {
            IOValue::Integer(i) => IOValue::Integer(*i),
            IOValue::Float(b) => IOValue::Float(*b),
            IOValue::Str(s) => IOValue::Str(s.clone()),
            IOValue::Fits(h) => IOValue::Fits(*h),
            IOValue::Image1d(v) => IOValue::Image1d(clone_samples(v)),
            IOValue::Image2d(v) => IOValue::Image2d(clone_image2d(v)),
            IOValue::Image3d(v) => IOValue::Image3d(clone_image3d(v)),
        }
    }
}

/// Copy an optional value; the copy models to the same data.
pub fn duplicate_option_value(v: &Option<IOValue>) -> (r: Option<IOValue>)
    ensures
        r.deep_view() == v.deep_view(),
{
    match v {
        Some(x) => Some(x.duplicate()),
        None => None,
    }
}

/// An error reported by a transformation's algorithm.
#[derive(Debug, Clone, PartialEq)]
pub enum IOErr {
    NotFound(String),
    FITSErr(String),
    UnexpectedInput(String),
}

} // verus!
