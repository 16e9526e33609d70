//! What a script means: each syntax node as a function from an image to a result.
//!
//! Results are the models of contexts (maps from location to pixel and annotation), so
//! the evaluator's contracts can say exactly what every node produces.
//!
//! Where the order in which a context holds its pixels could otherwise decide a result,
//! the order of locations decides instead (by `y`, then by `x`):
//! - a range bound reads the scalar at the first location;
//! - where a pixel-valued branch puts several values on one location, the value from
//!   the last source location stands.
//!
//! A comparison splits the input's locations: each part holds the input's pixels there,
//! whether the compared values are scalars or pixels. Operands that do not cover the
//! same locations fail with `IncompatibleContexts` rather than reading a missing value.
use crate::ast::{
    BinaryOpType, BinaryScalarOpNode, ExprNode, IqAstRootNode, MatchComparisonValue, MatchExprOpNode,
    MatchOpType, MatchReturnValue, OperatorNode, PixelExprType, PixelFnCall, PixelFnOp, PixelNode,
    ScalarExprNode, ScalarFnCall, ScalarFnOp, ScalarNode, SelectorCtxNode, SliceRangeNode,
};
use crate::attrs::{attr_map, attr_of, context_attr, is_pixel_attr};
use crate::context::{IqPixel, Loc, center_of, merge_all, span_x, span_y, sub_map};
use crate::ctx_ops::{PixelMap, add_map, map_after, norm_map};
use crate::error::EvalError;
use crate::num::Num;
use crate::ops::{Pointwise, combine_map, negate_map, reduce_map, sqrt_map, square_map};
use vstd::prelude::*;

verus! {

/// An image: a plain set of pixels.
pub type Img = Map<Loc, (IqPixel, ())>;

/// One scalar per location.
pub type Scalars = Map<Loc, (IqPixel, Num)>;

/// One pixel value per location.
pub type Pixels = Map<Loc, (IqPixel, IqPixel)>;

/// Every location of `m` annotated with `v`.
pub open spec fn broadcast<T, U>(m: Map<Loc, (IqPixel, T)>, v: U) -> Map<Loc, (IqPixel, U)> {
    m.map_values(|e: (IqPixel, T)| (e.0, v))
}

pub open spec fn pointwise_of(op: BinaryOpType) -> Pointwise {
    match op {
        BinaryOpType::Add => Pointwise::Add,
        BinaryOpType::Sub => Pointwise::Sub,
        BinaryOpType::Div => Pointwise::Div,
        BinaryOpType::Mul => Pointwise::Mul,
    }
}

/// `a` comes before `b`: by `y`, then by `x`.
pub open spec fn loc_lt(a: Loc, b: Loc) -> bool {
    a.0 < b.0 || (a.0 == b.0 && a.1 < b.1)
}

/// `l` is the first location of `d`.
pub open spec fn is_lowest(d: Set<Loc>, l: Loc) -> bool {
    d.contains(l) && forall|k: Loc| d.contains(k) && k != l ==> loc_lt(l, k)
}

pub open spec fn lowest(d: Set<Loc>) -> Loc {
    choose|l: Loc| is_lowest(d, l)
}

/// A finite set with a location has a first location.
pub proof fn lemma_lowest_exists(d: Set<Loc>)
    requires
        d.finite(),
        d.len() > 0,
    ensures
        is_lowest(d, lowest(d)),
{
    let le = |a: Loc, b: Loc| a == b || loc_lt(a, b);
    assert(vstd::relations::total_ordering(le));
    d.find_unique_minimal_ensures(le);
    let m = d.find_unique_minimal(le);
    assert forall|k: Loc| d.contains(k) && k != m implies loc_lt(m, k) by {
        assert(vstd::relations::is_minimal(le, m, d));
        if !loc_lt(m, k) {
            assert(k.0 != m.0 || k.1 != m.1);
            assert(loc_lt(k, m));
            assert(le(k, m));
            assert(le(m, k));
        }
    }
    assert(is_lowest(d, m));
    let w = lowest(d);
    if w != m {
        assert(loc_lt(w, m) && loc_lt(m, w));
    }
}

/// What a bound of a range resolves to: the scalar at the first location, rounded to a
/// coordinate; no bound where the scalar covers no location.
pub open spec fn bound_of(m: Scalars) -> Option<u32> {
    if m.dom().len() == 0 {
        None
    } else {
        Some(m[lowest(m.dom())].1.to_bounded(0, u32::MAX as int) as u32)
    }
}

/// A scalar as a coordinate: rounded to the nearest integer, halves away from zero, and
/// held within the range of `u32`; `Undefined` gives 0.
pub open spec fn coord(v: Num) -> u32 {
    v.to_bounded(0, u32::MAX as int) as u32
}

/// A scalar as a channel: rounded likewise and held within `[0, 255]`.
pub open spec fn channel(v: Num) -> u8 {
    v.to_bounded(0, 255) as u8
}

/// Whether `op` holds between two scalars; `Undefined` satisfies only `!=`.
pub open spec fn cmp_num(op: MatchOpType, a: Num, b: Num) -> bool {
    match op {
        MatchOpType::Lt => a.lt_spec(b),
        MatchOpType::Lte => a.le_spec(b),
        MatchOpType::Gt => b.lt_spec(a),
        MatchOpType::Gte => b.le_spec(a),
        MatchOpType::Eq => a.eq_num_spec(b),
        MatchOpType::Neq => !a.eq_num_spec(b),
    }
}

/// The channels in order, compared one after the other.
pub open spec fn channels_lt(a: [u8; 4], b: [u8; 4]) -> bool {
    a[0] < b[0] || (a[0] == b[0] && (a[1] < b[1] || (a[1] == b[1] && (a[2] < b[2] || (a[2]
        == b[2] && a[3] < b[3])))))
}

/// Pixels ordered by `x`, then `y`, then channels.
pub open spec fn pixel_lt(a: IqPixel, b: IqPixel) -> bool {
    a.x < b.x || (a.x == b.x && (a.y < b.y || (a.y == b.y && channels_lt(a.c, b.c))))
}

pub open spec fn cmp_pixel(op: MatchOpType, a: IqPixel, b: IqPixel) -> bool {
    match op {
        MatchOpType::Lt => pixel_lt(a, b),
        MatchOpType::Lte => pixel_lt(a, b) || a == b,
        MatchOpType::Gt => pixel_lt(b, a),
        MatchOpType::Gte => pixel_lt(b, a) || a == b,
        MatchOpType::Eq => a == b,
        MatchOpType::Neq => a != b,
    }
}

/// The pixels of `img` at the locations of `l` where the comparison with `r` comes out
/// as `want`.
pub open spec fn part_num(img: Img, l: Scalars, r: Scalars, op: MatchOpType, want: bool) -> Img {
    Map::new(
        |k: Loc| img.contains_key(k) && l.contains_key(k) && cmp_num(op, l[k].1, r[k].1) == want,
        |k: Loc| img[k],
    )
}

pub open spec fn part_pixel(img: Img, l: Pixels, r: Pixels, op: MatchOpType, want: bool) -> Img {
    Map::new(
        |k: Loc| img.contains_key(k) && l.contains_key(k) && cmp_pixel(op, l[k].1, r[k].1) == want,
        |k: Loc| img[k],
    )
}

/// `k` is the last location of `m` whose value lies at `l`.
pub open spec fn is_source(m: Pixels, l: Loc, k: Loc) -> bool {
    &&& m.contains_key(k)
    &&& m[k].1.loc() == l
    &&& forall|j: Loc| #[trigger] m.contains_key(j) && m[j].1.loc() == l && j != k ==> loc_lt(j, k)
}

pub open spec fn source(m: Pixels, l: Loc) -> Loc {
    choose|k: Loc| is_source(m, l, k)
}

/// The values of `m` as an image, each at its own location; where several lie at one
/// location, the one held at the last location of `m` stands.
pub open spec fn gather(m: Pixels) -> Img {
    Map::new(
        |l: Loc| exists|k: Loc| #[trigger] m.contains_key(k) && m[k].1.loc() == l,
        |l: Loc| (m[source(m, l)].1, ()),
    )
}

/// A pixel built at `l` from six scalar maps.
pub open spec fn built_pixel(
    xm: Scalars,
    ym: Scalars,
    rm: Scalars,
    gm: Scalars,
    bm: Scalars,
    am: Scalars,
    l: Loc,
) -> IqPixel {
    IqPixel {
        x: coord(xm[l].1),
        y: coord(ym[l].1),
        c: [channel(rm[l].1), channel(gm[l].1), channel(bm[l].1), channel(am[l].1)],
    }
}

pub open spec fn sem_scalar(e: ScalarExprNode, img: Img) -> Result<Scalars, EvalError>
    decreases e,
{
    match e {
        ScalarExprNode::ScalarFn(call) => sem_scalar_fn(call, img),
        ScalarExprNode::SubExpr(b) => sem_scalar(*b, img),
        ScalarExprNode::Scalar(n) => sem_scalar_node(n, img),
        ScalarExprNode::BinaryOp(b) => sem_binary(*b, img),
    }
}

pub open spec fn sem_scalar_all(args: Seq<ScalarExprNode>, img: Img) -> Result<Seq<Scalars>, EvalError>
    decreases args,
{
    if args.len() == 0 {
        Ok(Seq::empty())
    } else {
        match sem_scalar_all(args.subrange(0, args.len() - 1), img) {
            Ok(s) => match sem_scalar(args[args.len() - 1], img) {
                Ok(m) => Ok(s.push(m)),
                Err(e) => Err(e),
            },
            Err(e) => Err(e),
        }
    }
}

pub open spec fn sem_scalar_fn(call: ScalarFnCall, img: Img) -> Result<Scalars, EvalError>
    decreases call,
{
    match call.op {
        ScalarFnOp::Min => match sem_scalar_all(call.args@, img) {
            Ok(s) => match reduce_map(Pointwise::Min, s) {
                Some(m) => Ok(m),
                None => Err(EvalError::IncompatibleContexts),
            },
            Err(e) => Err(e),
        },
        ScalarFnOp::Max => match sem_scalar_all(call.args@, img) {
            Ok(s) => match reduce_map(Pointwise::Max, s) {
                Some(m) => Ok(m),
                None => Err(EvalError::IncompatibleContexts),
            },
            Err(e) => Err(e),
        },
        ScalarFnOp::Square => if call.args@.len() == 0 {
            Err(EvalError::MissingArgument)
        } else {
            match sem_scalar(call.args@[0], img) {
                Ok(m) => Ok(square_map(m)),
                Err(e) => Err(e),
            }
        },
        ScalarFnOp::Sqrt => if call.args@.len() == 0 {
            Err(EvalError::MissingArgument)
        } else {
            match sem_scalar(call.args@[0], img) {
                Ok(m) => Ok(sqrt_map(m)),
                Err(e) => Err(e),
            }
        },
    }
}

pub open spec fn sem_scalar_node(n: ScalarNode, img: Img) -> Result<Scalars, EvalError>
    decreases n,
{
    match n {
        ScalarNode::Decimal(v) => Ok(broadcast(img, v)),
        ScalarNode::Integer(i) => Ok(broadcast(img, Num::of_int_spec(i as int))),
        ScalarNode::SelectorScalar(s) => match sem_selector(s.selector_ctx, img) {
            Ok(sub) => match attr_of(s.accessed_attr.key@) {
                Some(a) => if !is_pixel_attr(a) {
                    Ok(broadcast(img, context_attr(sub.dom(), a)))
                } else {
                    Err(EvalError::UnknownAttribute(s.accessed_attr.key))
                },
                None => Err(EvalError::UnknownAttribute(s.accessed_attr.key)),
            },
            Err(e) => Err(e),
        },
        ScalarNode::PixelScalar(p, attr) => match sem_pixel(*p, img) {
            Ok(pm) => match attr_of(attr.key@) {
                Some(a) => if is_pixel_attr(a) {
                    Ok(attr_map(pm, a))
                } else {
                    Err(EvalError::UnknownAttribute(attr.key))
                },
                None => Err(EvalError::UnknownAttribute(attr.key)),
            },
            Err(e) => Err(e),
        },
    }
}

pub open spec fn sem_binary(b: BinaryScalarOpNode, img: Img) -> Result<Scalars, EvalError>
    decreases b,
{
    match sem_scalar(b.lhs, img) {
        Err(e) => Err(e),
        Ok(l) => match sem_scalar(b.rhs, img) {
            Err(e) => Err(e),
            Ok(r) => if l.dom() == r.dom() {
                Ok(combine_map(pointwise_of(b.op), l, r))
            } else {
                Err(EvalError::IncompatibleContexts)
            },
        },
    }
}

pub open spec fn sem_bound(b: Option<ScalarExprNode>, img: Img) -> Result<Option<u32>, EvalError>
    decreases b,
{
    match b {
        None => Ok(None),
        Some(e) => match sem_scalar(e, img) {
            Ok(m) => Ok(bound_of(m)),
            Err(err) => Err(err),
        },
    }
}

pub open spec fn sem_range(r: SliceRangeNode, img: Img) -> Result<(Option<u32>, Option<u32>), EvalError>
    decreases r,
{
    match sem_bound(r.lower_bound, img) {
        Err(e) => Err(e),
        Ok(lo) => match sem_bound(r.upper_bound, img) {
            Err(e) => Err(e),
            Ok(hi) => Ok((lo, hi)),
        },
    }
}

pub open spec fn sem_selector(s: SelectorCtxNode, img: Img) -> Result<Img, EvalError>
    decreases s,
{
    let yb = match s.y_slice_range {
        None => Ok((Some(0u32), Some(span_y(img.dom())))),
        Some(r) => sem_range(*r, img),
    };
    let xb = match s.x_slice_range {
        None => Ok((Some(0u32), Some(span_x(img.dom())))),
        Some(r) => sem_range(*r, img),
    };
    match yb {
        Err(e) => Err(e),
        Ok(yb) => match xb {
            Err(e) => Err(e),
            Ok(xb) => Ok(sub_map(img, yb, xb)),
        },
    }
}

pub open spec fn sem_pixel(p: PixelExprType, img: Img) -> Result<Pixels, EvalError>
    decreases p,
{
    match p {
        PixelExprType::Explicit(node) => sem_pixel_node(*node, img),
        PixelExprType::CurrentPixel => Ok(img.map_values(|e: (IqPixel, ())| (e.0, e.0))),
        PixelExprType::FnCall(call) => sem_pixel_fn(call, img),
    }
}

pub open spec fn sem_pixel_all(args: Seq<PixelExprType>, img: Img) -> Result<Seq<Pixels>, EvalError>
    decreases args,
{
    if args.len() == 0 {
        Ok(Seq::empty())
    } else {
        match sem_pixel_all(args.subrange(0, args.len() - 1), img) {
            Ok(s) => match sem_pixel(args[args.len() - 1], img) {
                Ok(m) => Ok(s.push(m)),
                Err(e) => Err(e),
            },
            Err(e) => Err(e),
        }
    }
}

/// The change that a one-argument pixel function makes.
pub open spec fn unary_pixel_op(op: PixelFnOp, m: Pixels) -> Pixels {
    match op {
        PixelFnOp::Neighbors(dy, dx) => map_after(PixelMap::Shift(dy, dx), m),
        PixelFnOp::ColorScale(f) => map_after(PixelMap::Scale(f), m),
        PixelFnOp::AlphaBlend(f) => map_after(PixelMap::Blend(f), m),
        _ => norm_map(m),
    }
}

pub open spec fn sem_pixel_fn(call: PixelFnCall, img: Img) -> Result<Pixels, EvalError>
    decreases call,
{
    match call.op {
        PixelFnOp::Center => Ok(broadcast(img, center_of(img))),
        PixelFnOp::ColorAdd => match sem_pixel_all(call.args@, img) {
            Ok(s) => if forall|i: int| 0 <= i < s.len() ==> (#[trigger] s[i]).dom() == s[0].dom() {
                Ok(add_map(s))
            } else {
                Err(EvalError::IncompatibleContexts)
            },
            Err(e) => Err(e),
        },
        _ => if call.args@.len() == 0 {
            Err(EvalError::MissingArgument)
        } else {
            match sem_pixel(call.args@[0], img) {
                Ok(m) => Ok(unary_pixel_op(call.op, m)),
                Err(e) => Err(e),
            }
        },
    }
}

pub open spec fn sem_pixel_node(n: PixelNode, img: Img) -> Result<Pixels, EvalError>
    decreases n,
{
    match sem_scalar(n.x_expr, img) {
        Err(e) => Err(e),
        Ok(xm) => match sem_scalar(n.y_expr, img) {
            Err(e) => Err(e),
            Ok(ym) => match sem_scalar(n.r_expr, img) {
                Err(e) => Err(e),
                Ok(rm) => match sem_scalar(n.g_expr, img) {
                    Err(e) => Err(e),
                    Ok(gm) => match sem_scalar(n.b_expr, img) {
                        Err(e) => Err(e),
                        Ok(bm) => match sem_scalar(n.a_expr, img) {
                            Err(e) => Err(e),
                            Ok(am) => if xm.dom() == img.dom() && ym.dom() == img.dom()
                                && rm.dom() == img.dom() && gm.dom() == img.dom() && bm.dom()
                                == img.dom() && am.dom() == img.dom() {
                                Ok(
                                    Map::new(
                                        |l: Loc| img.contains_key(l),
                                        |l: Loc| (img[l].0, built_pixel(xm, ym, rm, gm, bm, am, l)),
                                    ),
                                )
                            } else {
                                Err(EvalError::IncompatibleContexts)
                            },
                        },
                    },
                },
            },
        },
    }
}

pub open spec fn sem_operator(op: OperatorNode, img: Img) -> Result<Img, EvalError>
    decreases op,
{
    match op {
        OperatorNode::UnaryNegationOp => Ok(negate_map(img)),
        OperatorNode::MatchExprOp(m) => sem_match(m, img),
    }
}

/// The image split into the matched part and the rest.
pub open spec fn sem_partition(m: MatchExprOpNode, img: Img) -> Result<(Img, Img), EvalError>
    decreases m,
{
    match m.match_comparator_node {
        None => Ok((img, Map::empty())),
        Some(cmp) => match (m.match_value, cmp.cmp_val) {
            (MatchComparisonValue::Scalar(l), MatchComparisonValue::Scalar(r)) => match sem_scalar(l, img) {
                Err(e) => Err(e),
                Ok(lm) => match sem_scalar(r, img) {
                    Err(e) => Err(e),
                    Ok(rm) => if lm.dom().subset_of(rm.dom()) {
                        Ok((part_num(img, lm, rm, cmp.op_type, true), part_num(img, lm, rm, cmp.op_type, false)))
                    } else {
                        Err(EvalError::IncompatibleContexts)
                    },
                },
            },
            (MatchComparisonValue::Pixel(l), MatchComparisonValue::Pixel(r)) => match sem_pixel(l, img) {
                Err(e) => Err(e),
                Ok(lm) => match sem_pixel(r, img) {
                    Err(e) => Err(e),
                    Ok(rm) => if lm.dom().subset_of(rm.dom()) {
                        Ok((part_pixel(img, lm, rm, cmp.op_type, true), part_pixel(img, lm, rm, cmp.op_type, false)))
                    } else {
                        Err(EvalError::IncompatibleContexts)
                    },
                },
            },
            _ => Err(EvalError::TypeMismatch),
        },
    }
}

pub open spec fn sem_match(m: MatchExprOpNode, img: Img) -> Result<Img, EvalError>
    decreases m,
{
    match sem_partition(m, img) {
        Err(e) => Err(e),
        Ok(parts) => match sem_return(*m.match_return_value_node, parts.0) {
            Err(e) => Err(e),
            Ok(mo) => match m.else_return_value_node {
                None => Ok(mo),
                Some(eb) => match sem_return(*eb, parts.1) {
                    Err(e) => Err(e),
                    Ok(eo) => Ok(mo.union_prefer_right(eo)),
                },
            },
        },
    }
}

pub open spec fn sem_return(rv: MatchReturnValue, img: Img) -> Result<Img, EvalError>
    decreases rv,
{
    match rv {
        MatchReturnValue::Pixel(p) => match sem_pixel(p, img) {
            Ok(pm) => Ok(gather(pm)),
            Err(e) => Err(e),
        },
        MatchReturnValue::Operator(op) => sem_operator(op, img),
    }
}

/// The operators applied in order, each to the output of the one before.
pub open spec fn sem_ops(ops: Seq<OperatorNode>, cur: Img) -> Result<Img, EvalError>
    decreases ops.len(),
{
    if ops.len() == 0 {
        Ok(cur)
    } else {
        match sem_ops(ops.drop_last(), cur) {
            Ok(c) => sem_operator(ops.last(), c),
            Err(e) => Err(e),
        }
    }
}

pub open spec fn sem_expr(e: ExprNode, img: Img) -> Result<Img, EvalError> {
    let start = match e.selector_ctx {
        None => Ok(img),
        Some(s) => sem_selector(s, img),
    };
    match start {
        Err(err) => Err(err),
        Ok(st) => sem_ops(e.op_nodes@, st),
    }
}

/// Every expression evaluated against the same image, in order.
pub open spec fn sem_exprs(es: Seq<ExprNode>, img: Img) -> Result<Seq<Img>, EvalError>
    decreases es.len(),
{
    if es.len() == 0 {
        Ok(Seq::empty())
    } else {
        match sem_exprs(es.drop_last(), img) {
            Ok(s) => match sem_expr(es.last(), img) {
                Ok(m) => Ok(s.push(m)),
                Err(e) => Err(e),
            },
            Err(e) => Err(e),
        }
    }
}

/// A script: its expressions' outputs merged in order, a later one winning at a location.
pub open spec fn sem_root(root: IqAstRootNode, img: Img) -> Result<Img, EvalError> {
    match sem_exprs(root.exprs@, img) {
        Ok(s) => Ok(merge_all(s)),
        Err(e) => Err(e),
    }
}

} // verus!
