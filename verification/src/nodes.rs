//! The closed catalog of node kinds and the per-kind recompute policy.
//!
//! Every node kind declares a fixed ordered list of input port kinds and
//! output port kinds, can report a cached output value, and can recompute
//! its cached state from one optional value per input port.  The catalog
//! is a closed tagged union: a constant number source, a constant text
//! source, a binary sum node, and a terminal sink.

use vstd::prelude::*;

use crate::data_type::DataType;
use crate::data_type::TypedData;

verus! {

/// Constant number source: no inputs, one `Number` output whose value is
/// externally settable.
#[derive(Debug, Clone, Copy)]
pub struct NumberNode {
    pub value: i64,
}

impl NumberNode {
    pub fn new(value: i64) -> (r: Self)
        ensures
            r.value == value,
    {
        Self { value }
    }
}

/// Constant text source: no inputs, one `String` output whose value is
/// externally settable.
#[derive(Debug)]
pub struct StringNode {
    pub value: String,
}

impl StringNode {
    pub fn new(value: String) -> (r: Self)
        ensures
            r.value == value,
    {
        Self { value }
    }
}

/// Binary sum node: two `Number` inputs, one `Number` output holding the
/// last recomputed sum, absent until the first recomputation.
#[derive(Debug, Clone, Copy)]
pub struct AddNode {
    pub cached_result: Option<i64>,
}

impl Default for AddNode {
    /// A fresh sum node has not computed anything yet.
    fn default() -> (r: Self)
        ensures
            r.cached_result is None,
    {
        AddNode { cached_result: None }
    }
}

/// Terminal sink: one wildcard input, no outputs, and no cached state of
/// its own; it only displays whatever its input carries.
#[derive(Debug, Clone, Copy)]
pub struct SinkNode;

/// A node of the graph: one of the catalog kinds together with its state.
#[derive(Debug)]
pub enum DemoNode {
    Number(NumberNode),
    Text(StringNode),
    Add(AddNode),
    Sink(SinkNode),
}

/// The numeric contribution of one gathered input value: a connected
/// number counts itself, everything else (absent input, or a value of
/// another kind) contributes zero to a sum.
pub open spec fn num_or_zero_spec(v: Option<TypedData>) -> i64 {
    match v {
        Some(TypedData::Number(k)) => k,
        _ => 0,
    }
}

/// Executable twin of [`num_or_zero_spec`].
pub fn num_or_zero(v: &Option<TypedData>) -> (r: i64)
    ensures
        r == num_or_zero_spec(*v),
{
    match v {
        Some(TypedData::Number(k)) => *k,
        _ => 0,
    }
}

/// Two nodes have the same shape when they can differ at most in the
/// sum node's cached result: same kind, same port lists, same literal
/// state.  Recomputation never changes a node's shape.
pub open spec fn same_shape(a: DemoNode, b: DemoNode) -> bool {
    match (a, b) {
        (DemoNode::Add(_), DemoNode::Add(_)) => true,
        _ => a == b,
    }
}

/// Recomputation preserves a node's shape and port lists.
pub proof fn lemma_updated_shape(n: DemoNode, ins: Seq<Option<TypedData>>)
    ensures
        same_shape(n, n.updated(ins)),
        n.updated(ins).input_kinds() == n.input_kinds(),
        n.updated(ins).output_kinds() == n.output_kinds(),
{
}

/// Recomputing twice from the same inputs is the same as recomputing
/// once: the result depends on the inputs alone.
pub proof fn lemma_updated_idempotent(n: DemoNode, ins: Seq<Option<TypedData>>)
    ensures
        n.updated(ins).updated(ins) == n.updated(ins),
{
}

/// Whether `v` is a value a source node `n` can be set to: a number for
/// the number source, text for the text source.
pub open spec fn literal_settable(n: DemoNode, v: TypedData) -> bool {
    match (n, v) {
        (DemoNode::Number(_), TypedData::Number(_)) => true,
        (DemoNode::Text(_), TypedData::String(_)) => true,
        _ => false,
    }
}

/// The node `n` with its literal replaced by `v`, where that applies.
pub open spec fn with_literal(n: DemoNode, v: TypedData) -> DemoNode {
    match (n, v) {
        (DemoNode::Number(_), TypedData::Number(x)) => DemoNode::Number(NumberNode { value: x }),
        (DemoNode::Text(_), TypedData::String(s)) => DemoNode::Text(StringNode { value: s }),
        _ => n,
    }
}

/// Setting a literal never changes a node's port lists.
pub proof fn lemma_with_literal_shape(n: DemoNode, v: TypedData)
    ensures
        with_literal(n, v).input_kinds() == n.input_kinds(),
        with_literal(n, v).output_kinds() == n.output_kinds(),
{
}

/// Shape agreement is transitive.
pub proof fn lemma_same_shape_trans(a: DemoNode, b: DemoNode, c: DemoNode)
    requires
        same_shape(a, b),
        same_shape(b, c),
    ensures
        same_shape(a, c),
{
}

impl DemoNode {
    /// Declared kinds of the input ports, in port order.
    pub open spec fn input_kinds(self) -> Seq<DataType> {
        match self {
            DemoNode::Number(_) => Seq::empty(),
            DemoNode::Text(_) => Seq::empty(),
            DemoNode::Add(_) => seq![DataType::Number, DataType::Number],
            DemoNode::Sink(_) => seq![DataType::Unknown],
        }
    }

    /// Declared kinds of the output ports, in port order.
    pub open spec fn output_kinds(self) -> Seq<DataType> {
        match self {
            DemoNode::Number(_) => seq![DataType::Number],
            DemoNode::Text(_) => seq![DataType::String],
            DemoNode::Add(_) => seq![DataType::Number],
            DemoNode::Sink(_) => Seq::empty(),
        }
    }

    /// The cached value of output port `idx`, absent while nothing has
    /// been computed yet.
    pub open spec fn out_val(self, idx: int) -> Option<TypedData> {
        match self {
            DemoNode::Number(n) => Some(TypedData::Number(n.value)),
            DemoNode::Text(t) => Some(TypedData::String(t.value)),
            DemoNode::Add(a) => match a.cached_result {
                Some(v) => Some(TypedData::Number(v)),
                None => None,
            },
            DemoNode::Sink(_) => None,
        }
    }

    /// The node after recomputing from one optional value per input port.
    /// Only the sum node holds computed state: its cache becomes the
    /// wrapping sum of the numeric contributions of its two inputs, an
    /// absent input contributing zero.  Sources and the sink are
    /// unchanged by recomputation.
    pub open spec fn updated(self, inputs: Seq<Option<TypedData>>) -> DemoNode {
        match self {
            DemoNode::Add(_) => DemoNode::Add(
                AddNode {
                    cached_result: Some(
                        num_or_zero_spec(inputs[0]).wrapping_add(num_or_zero_spec(inputs[1])),
                    ),
                },
            ),
            _ => self,
        }
    }

    /// Display name of the node kind.
    pub fn name(&self) -> (r: &'static str)
        ensures
            self is Number ==> r@ == "Number"@,
            self is Text ==> r@ == "String"@,
            self is Add ==> r@ == "Add"@,
            self is Sink ==> r@ == "Sink"@,
    {
        match self {
            DemoNode::Number(_) => "Number",
            DemoNode::Text(_) => "String",
            DemoNode::Add(_) => "Add",
            DemoNode::Sink(_) => "Sink",
        }
    }

    /// Input port kinds as a vector, in port order.
    pub fn inputs(&self) -> (r: Vec<DataType>)
        ensures
            r@ == self.input_kinds(),
    {
        match self {
            DemoNode::Number(_) => Vec::new(),
            DemoNode::Text(_) => Vec::new(),
            DemoNode::Add(_) => {
                let mut v: Vec<DataType> = Vec::new();
                v.push(DataType::Number);
                v.push(DataType::Number);
                proof {
                    assert(v@ =~= self.input_kinds());
                }
                v
            },
            DemoNode::Sink(_) => {
                let mut v: Vec<DataType> = Vec::new();
                v.push(DataType::Unknown);
                proof {
                    assert(v@ =~= self.input_kinds());
                }
                v
            },
        }
    }

    /// Output port kinds as a vector, in port order.
    pub fn outputs(&self) -> (r: Vec<DataType>)
        ensures
            r@ == self.output_kinds(),
    {
        match self {
            DemoNode::Sink(_) => Vec::new(),
            _ => {
                let mut v: Vec<DataType> = Vec::new();
                let k = match self {
                    DemoNode::Number(_) => DataType::Number,
                    DemoNode::Text(_) => DataType::String,
                    DemoNode::Add(_) => DataType::Number,
                    DemoNode::Sink(_) => DataType::Unknown,
                };
                v.push(k);
                proof {
                    assert(v@ =~= self.output_kinds());
                }
                v
            },
        }
    }

    /// Number of declared input ports.
    pub fn input_count(&self) -> (r: usize)
        ensures
            r == self.input_kinds().len(),
    {
        match self {
            DemoNode::Number(_) => 0,
            DemoNode::Text(_) => 0,
            DemoNode::Add(_) => 2,
            DemoNode::Sink(_) => 1,
        }
    }

    /// Number of declared output ports.
    pub fn output_count(&self) -> (r: usize)
        ensures
            r == self.output_kinds().len(),
    {
        match self {
            DemoNode::Sink(_) => 0,
            _ => 1,
        }
    }

    /// Declared kind of input port `idx`.
    pub fn input_kind(&self, idx: usize) -> (r: DataType)
        requires
            idx < self.input_kinds().len(),
        ensures
            r == self.input_kinds()[idx as int],
    {
        match self {
            DemoNode::Add(_) => DataType::Number,
            DemoNode::Sink(_) => DataType::Unknown,
            // sources declare no input ports, so these arms are never
            // reached under the precondition
            _ => DataType::Unknown,
        }
    }

    /// Declared kind of output port `idx`.
    pub fn output_kind(&self, idx: usize) -> (r: DataType)
        requires
            idx < self.output_kinds().len(),
        ensures
            r == self.output_kinds()[idx as int],
    {
        match self {
            DemoNode::Number(_) => DataType::Number,
            DemoNode::Text(_) => DataType::String,
            DemoNode::Add(_) => DataType::Number,
            DemoNode::Sink(_) => DataType::Unknown,
        }
    }

    /// The cached value of output port `idx`, absent if the node has not
    /// produced a value for that port yet.
    pub fn output_value(&self, idx: usize) -> (r: Option<TypedData>)
        requires
            idx < self.output_kinds().len(),
        ensures
            r == self.out_val(idx as int),
    {
        match self {
            DemoNode::Number(n) => Some(TypedData::Number(n.value)),
            DemoNode::Text(t) => Some(TypedData::String(t.value.clone())),
            DemoNode::Add(a) => match a.cached_result {
                Some(v) => Some(TypedData::Number(v)),
                None => None,
            },
            DemoNode::Sink(_) => None,
        }
    }

    /// Recompute the node's cached state from one optional value per
    /// declared input port.
    pub fn update(&mut self, inputs: &Vec<Option<TypedData>>)
        requires
            inputs@.len() == old(self).input_kinds().len(),
        ensures
            *final(self) == old(self).updated(inputs@),
    {
        match self {
            DemoNode::Add(a) => {
                let c0 = num_or_zero(&inputs[0]);
                let c1 = num_or_zero(&inputs[1]);
                a.cached_result = Some(c0.wrapping_add(c1));
            },
            _ => {},
        }
    }
}

} // verus!
