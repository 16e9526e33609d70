//! The syntax tree of a script, as the parser hands it over.
use crate::num::Num;
use vstd::prelude::*;

verus! {

/// The name of an attribute, such as `x` or `w`.
#[derive(Clone, Debug)]
pub struct AttrAccessNode {
    pub key: String,
}

/// An attribute of the part of the image that a selector picks, such as `[0:4,].w`.
#[derive(Debug)]
pub struct SelectorScalarNode {
    pub selector_ctx: SelectorCtxNode,
    pub accessed_attr: AttrAccessNode,
}

#[derive(Debug)]
pub enum ScalarNode {
    /// A number with a fractional part.
    Decimal(Num),
    Integer(i64),
    SelectorScalar(SelectorScalarNode),
    /// An attribute of every value of a pixel expression, such as `_.r`.
    PixelScalar(Box<PixelExprType>, AttrAccessNode),
}

#[derive(Clone, Copy, Debug, PartialEq, Eq, Structural)]
pub enum BinaryOpType {
    Add,
    Sub,
    Div,
    Mul,
}

#[derive(Clone, Copy, Debug, PartialEq, Eq, Structural)]
pub enum MatchOpType {
    Lt,
    Lte,
    Gt,
    Gte,
    Eq,
    Neq,
}

/// A pixel built from six scalars.
#[derive(Debug)]
pub struct PixelNode {
    pub y_expr: ScalarExprNode,
    pub x_expr: ScalarExprNode,
    pub r_expr: ScalarExprNode,
    pub g_expr: ScalarExprNode,
    pub b_expr: ScalarExprNode,
    pub a_expr: ScalarExprNode,
}

#[derive(Debug)]
pub enum PixelExprType {
    Explicit(Box<PixelNode>),
    /// `_`: the pixel at each location.
    CurrentPixel,
    FnCall(PixelFnCall),
}

#[derive(Debug)]
pub enum MatchComparisonValue {
    Scalar(ScalarExprNode),
    Pixel(PixelExprType),
}

#[derive(Debug)]
pub struct MatchComparatorNode {
    pub op_type: MatchOpType,
    pub cmp_val: MatchComparisonValue,
}

#[derive(Debug)]
pub enum MatchReturnValue {
    Pixel(PixelExprType),
    Operator(OperatorNode),
}

/// `value [op other] => matched [else other_branch]`.
#[derive(Debug)]
pub struct MatchExprOpNode {
    pub match_value: MatchComparisonValue,
    pub match_comparator_node: Option<MatchComparatorNode>,
    pub match_return_value_node: Box<MatchReturnValue>,
    pub else_return_value_node: Option<Box<MatchReturnValue>>,
}

#[derive(Debug)]
pub enum OperatorNode {
    UnaryNegationOp,
    MatchExprOp(MatchExprOpNode),
}

#[derive(Debug)]
pub struct BinaryScalarOpNode {
    pub lhs: ScalarExprNode,
    pub op: BinaryOpType,
    pub rhs: ScalarExprNode,
}

#[derive(Clone, Copy, Debug, PartialEq, Eq, Structural)]
pub enum ScalarFnOp {
    Min,
    Max,
    Square,
    Sqrt,
}

#[derive(Clone, Copy, Debug)]
pub enum PixelFnOp {
    Center,
    Neighbors(i64, i64),
    ColorScale(Num),
    ColorAdd,
    ColorNorm,
    AlphaBlend(Num),
}

#[derive(Debug)]
pub struct PixelFnCall {
    pub op: PixelFnOp,
    pub args: Vec<PixelExprType>,
}

#[derive(Debug)]
pub struct ScalarFnCall {
    pub op: ScalarFnOp,
    pub args: Vec<ScalarExprNode>,
}

#[derive(Debug)]
pub enum ScalarExprNode {
    ScalarFn(ScalarFnCall),
    SubExpr(Box<ScalarExprNode>),
    Scalar(ScalarNode),
    BinaryOp(Box<BinaryScalarOpNode>),
}

/// `lower:upper`, either bound left out.
#[derive(Debug)]
pub struct SliceRangeNode {
    pub lower_bound: Option<ScalarExprNode>,
    pub upper_bound: Option<ScalarExprNode>,
}

/// `[y_range, x_range]`, either range left out.
#[derive(Debug)]
pub struct SelectorCtxNode {
    pub y_slice_range: Option<Box<SliceRangeNode>>,
    pub x_slice_range: Option<Box<SliceRangeNode>>,
}

/// An optional selector followed by operators, each applied to the output of the last.
#[derive(Debug)]
pub struct ExprNode {
    pub selector_ctx: Option<SelectorCtxNode>,
    pub op_nodes: Vec<OperatorNode>,
}

/// A whole script: its expressions in order.
#[derive(Debug)]
pub struct IqAstRootNode {
    pub exprs: Vec<ExprNode>,
}

} // verus!
