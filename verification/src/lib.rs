//! A typed dataflow execution engine.
//!
//! Users assemble a directed acyclic graph whose nodes are typed
//! transformations and whose edges carry values between them.  The engine
//! validates the graph as it is built (port bounds, type compatibility,
//! input exclusivity, acyclicity), evaluates declared output sinks with
//! per-port memoization, and converts the graph to and from an
//! order-stable portable representation.

use vstd::prelude::*;

mod builder;
mod compute;
mod dst;
mod export;
mod graph;
mod iterators;
mod timed;
mod transform;
mod value;

pub use dst::edge_lt;
pub use transform::constant_descriptor;
pub use export::serial_of;
pub use compute::InputSource;
pub use dst::is_evaluation_error;
pub use timed::Timed;
pub use iterators::Dependency;
pub use iterators::NodeId;
pub use export::DeserDST;
pub use export::DeserTransform;
pub use export::ImportError;
pub use export::STData;
pub use export::SerialDST;
pub use export::SerialData;
pub use export::SerialTransform;
pub use dst::DSTError;
pub use dst::Input;
pub use dst::InputList;
pub use dst::InputSlot;
pub use dst::MetaData;
pub use dst::MetaTransform;
pub use dst::Output;
pub use dst::OutputId;
pub use dst::TransformIdx;
pub use dst::DST;

pub use transform::clone_inputs;
pub use transform::clone_types;
pub use transform::clone_values;
pub use transform::AlgoData;
pub use transform::Algorithm;
pub use transform::FeedError;
pub use transform::NamedAlgorithms;
pub use transform::TransData;
pub use transform::Transformation;
pub use transform::TransformationCaller;
pub use transform::TransformationResult;
pub use value::clone_image2d;
pub use value::clone_image3d;
pub use value::clone_samples;
pub use value::duplicate_option_value;
pub use value::IOErr;
pub use value::IOType;
pub use value::IOValue;
pub use value::TypeContent;
pub use value::ValueData;

verus! {

} // verus!
