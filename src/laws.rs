//! Properties of the language that hold for every image.
use crate::ast::{
    BinaryScalarOpNode, ExprNode, IqAstRootNode, MatchComparisonValue, MatchExprOpNode,
    MatchReturnValue, OperatorNode, PixelExprType, PixelFnCall, PixelFnOp, ScalarExprNode,
    ScalarFnCall, ScalarFnOp, ScalarNode, SliceRangeNode,
};
use crate::context::{BasicContext, IqPixel, Loc, merge_all, within};
use crate::ctx_ops::{PixelMap, add_map, map_after, norm_map};
use crate::num::{Num, num_of};
use crate::ops::{Pointwise, negate_map, reduce_map};
use crate::attrs::{attr_map, attr_of, is_pixel_attr};
use crate::semantics::{
    Img, Pixels, Scalars, built_pixel, gather, is_source, sem_binary, sem_expr, sem_exprs, sem_match,
    sem_operator, sem_ops, sem_partition, sem_pixel, sem_pixel_all, sem_pixel_fn, sem_return,
    sem_root, sem_scalar, sem_scalar_all, sem_scalar_fn, sem_scalar_node, source, sem_bound,
    sem_range, sem_selector, lemma_lowest_exists, lowest, bound_of,
};
use vstd::prelude::*;

verus! {

/// `_ => _`: every pixel matched, and each one returned as it is.
pub open spec fn is_identity_rule(op: OperatorNode) -> bool {
    match op {
        OperatorNode::MatchExprOp(m) => {
            &&& m.match_value matches MatchComparisonValue::Pixel(PixelExprType::CurrentPixel)
            &&& m.match_comparator_node is None
            &&& *m.match_return_value_node matches MatchReturnValue::Pixel(PixelExprType::CurrentPixel)
            &&& m.else_return_value_node is None
        },
        _ => false,
    }
}

/// A script of one expression, without selector, whose one operator is `op`.
pub open spec fn is_single_rule(root: IqAstRootNode, op: OperatorNode) -> bool {
    &&& root.exprs@.len() == 1
    &&& root.exprs@[0].selector_ctx is None
    &&& root.exprs@[0].op_nodes@ == seq![op]
}

/// `_.k`: the attribute named by the single character `k` of the pixel at each location.
pub open spec fn is_own_attr(e: ScalarExprNode, k: char) -> bool {
    match e {
        ScalarExprNode::Scalar(ScalarNode::PixelScalar(p, attr)) => *p is CurrentPixel && attr.key@
            == seq![k],
        _ => false,
    }
}

/// `_ => p(_.y, _.x, _.r, _.g, _.b)`, alpha left at its default of 255.
pub open spec fn is_identity_rewrite(op: OperatorNode) -> bool {
    match op {
        OperatorNode::MatchExprOp(m) => {
            &&& m.match_value matches MatchComparisonValue::Pixel(PixelExprType::CurrentPixel)
            &&& m.match_comparator_node is None
            &&& m.else_return_value_node is None
            &&& match *m.match_return_value_node {
                MatchReturnValue::Pixel(PixelExprType::Explicit(n)) => {
                    &&& is_own_attr(n.y_expr, 'y')
                    &&& is_own_attr(n.x_expr, 'x')
                    &&& is_own_attr(n.r_expr, 'r')
                    &&& is_own_attr(n.g_expr, 'g')
                    &&& is_own_attr(n.b_expr, 'b')
                    &&& n.a_expr == ScalarExprNode::Scalar(ScalarNode::Integer(255))
                },
                _ => false,
            }
        },
        _ => false,
    }
}

/// A single script expression's output is the script's output.
proof fn lemma_single_expr(root: IqAstRootNode, img: Img)
    requires
        root.exprs@.len() == 1,
    ensures
        sem_root(root, img) == match sem_expr(root.exprs@[0], img) {
            Ok(m) => Ok::<Img, crate::error::EvalError>(m),
            Err(e) => Err(e),
        },
{
    let es = root.exprs@;
    assert(es.drop_last() =~= Seq::<ExprNode>::empty());
    match sem_expr(es[0], img) {
        Ok(m) => {
            let s = seq![m];
            assert(s.drop_last() =~= Seq::<Img>::empty());
            assert(merge_all(s.drop_last()) == Map::<Loc, (IqPixel, ())>::empty());
            assert(merge_all(s) =~= m);
            assert(sem_exprs(es.drop_last(), img) == Ok::<Seq<Img>, crate::error::EvalError>(Seq::empty()));
            assert(sem_exprs(es, img) == Ok::<Seq<Img>, crate::error::EvalError>(Seq::<Img>::empty().push(m)));
            assert(Seq::<Img>::empty().push(m) =~= s);
        },
        Err(e) => {
            assert(sem_exprs(es.drop_last(), img) == Ok::<Seq<Img>, crate::error::EvalError>(Seq::empty()));
        },
    }
}

proof fn lemma_single_op(ops: Seq<OperatorNode>, img: Img)
    requires
        ops.len() == 1,
    ensures
        sem_ops(ops, img) == sem_operator(ops[0], img),
{
    assert(ops.drop_last() =~= Seq::<OperatorNode>::empty());
    assert(sem_ops(ops.drop_last(), img) == Ok::<Img, crate::error::EvalError>(img));
    assert(ops.last() == ops[0]);
}

/// The values of a map that holds every pixel at its own location, gathered, are the image.
proof fn lemma_gather_own(img: Img, pm: Pixels)
    requires
        pm.dom() == img.dom(),
        forall|l: Loc| #[trigger] img.contains_key(l) ==> img[l].0.loc() == l && pm[l].1 == img[l].0,
    ensures
        gather(pm) == img,
{
    assert forall|l: Loc| #[trigger] img.contains_key(l) implies source(pm, l) == l by {
        assert(is_source(pm, l, l));
        let s = source(pm, l);
        if s != l {
            assert(pm.contains_key(s) && pm[s].1.loc() == l);
        }
    }
    assert forall|l: Loc| gather(pm).contains_key(l) <==> img.contains_key(l) by {
        if img.contains_key(l) {
            assert(pm.contains_key(l) && pm[l].1.loc() == l);
        }
    }
    assert forall|l: Loc| #[trigger] img.contains_key(l) implies gather(pm)[l] == img[l] by {
        assert(gather(pm).contains_key(l));
        assert(source(pm, l) == l);
        assert(gather(pm)[l] == (pm[l].1, ()));
    }
    assert(gather(pm) =~= img);
}

/// The script `_ => _` gives back any image unchanged.
pub proof fn lemma_identity(root: IqAstRootNode, op: OperatorNode, c: BasicContext)
    requires
        c.wf(),
        is_single_rule(root, op),
        is_identity_rule(op),
    ensures
        sem_root(root, c@) == Ok::<Img, crate::error::EvalError>(c@),
{
    c.lemma_wf();
    let img = c@;
    lemma_single_expr(root, img);
    lemma_single_op(root.exprs@[0].op_nodes@, img);
    let m = op->MatchExprOp_0;
    assert(sem_partition(m, img) == Ok::<(Img, Img), crate::error::EvalError>((img, Map::empty())));
    let pm = img.map_values(|e: (IqPixel, ())| (e.0, e.0));
    assert(sem_pixel(PixelExprType::CurrentPixel, img) == Ok::<Pixels, crate::error::EvalError>(pm));
    assert(pm.dom() =~= img.dom());
    lemma_gather_own(img, pm);
    assert(sem_return(*m.match_return_value_node, img) == Ok::<Img, crate::error::EvalError>(img));
}

/// `_.k` evaluates to the attribute `k` read from the pixel at every location.
proof fn lemma_own_attr(e: ScalarExprNode, k: char, img: Img)
    requires
        is_own_attr(e, k),
        attr_of(seq![k]) is Some,
        is_pixel_attr(attr_of(seq![k])->0),
    ensures
        sem_scalar(e, img) == Ok::<Scalars, crate::error::EvalError>(
            attr_map(img.map_values(|e: (IqPixel, ())| (e.0, e.0)), attr_of(seq![k])->0),
        ),
{
    let cur = img.map_values(|e: (IqPixel, ())| (e.0, e.0));
    match e {
        ScalarExprNode::Scalar(ScalarNode::PixelScalar(p, attr)) => {
            assert(sem_pixel(*p, img) == Ok::<Pixels, crate::error::EvalError>(cur));
            assert(attr.key@ == seq![k]);
            assert(sem_scalar_node(ScalarNode::PixelScalar(p, attr), img) == Ok::<Scalars, crate::error::EvalError>(
                attr_map(cur, attr_of(seq![k])->0),
            ));
        },
        _ => {},
    }
}

/// An integer coordinate or channel, taken to a scalar and back, is unchanged.
proof fn lemma_int_round_trip(v: int)
    requires
        0 <= v <= u32::MAX,
    ensures
        num_of(v * 1000) == Num::Fixed((v * 1000) as i64),
        Num::Fixed((v * 1000) as i64).to_bounded(0, u32::MAX as int) == v,
        v <= 255 ==> Num::Fixed((v * 1000) as i64).to_bounded(0, 255) == v,
{
    assert((v * 1000 + 500) / 1000 == v) by (nonlinear_arith)
        requires 0 <= v;
}

/// The script `_ => p(_.y, _.x, _.r, _.g, _.b)` gives back any fully opaque image unchanged.
pub proof fn lemma_identity_rewrite(root: IqAstRootNode, op: OperatorNode, c: BasicContext)
    requires
        c.wf(),
        is_single_rule(root, op),
        is_identity_rewrite(op),
        forall|l: Loc| #[trigger] c@.contains_key(l) ==> c@[l].0.c[3] == 255,
    ensures
        sem_root(root, c@) == Ok::<Img, crate::error::EvalError>(c@),
{
    broadcast use vstd::array::group_array_axioms;

    c.lemma_wf();
    let img = c@;
    lemma_single_expr(root, img);
    lemma_single_op(root.exprs@[0].op_nodes@, img);
    let m = op->MatchExprOp_0;
    assert(sem_partition(m, img) == Ok::<(Img, Img), crate::error::EvalError>((img, Map::empty())));
    let n = match *m.match_return_value_node {
        MatchReturnValue::Pixel(PixelExprType::Explicit(n)) => *n,
        _ => arbitrary(),
    };
    let cur = img.map_values(|e: (IqPixel, ())| (e.0, e.0));
    assert(sem_pixel(PixelExprType::CurrentPixel, img) == Ok::<Pixels, crate::error::EvalError>(cur));
    crate::attrs::lemma_attr_names();
    lemma_own_attr(n.x_expr, 'x', img);
    lemma_own_attr(n.y_expr, 'y', img);
    lemma_own_attr(n.r_expr, 'r', img);
    lemma_own_attr(n.g_expr, 'g', img);
    lemma_own_attr(n.b_expr, 'b', img);
    let xm = sem_scalar(n.x_expr, img)->Ok_0;
    let ym = sem_scalar(n.y_expr, img)->Ok_0;
    let rm = sem_scalar(n.r_expr, img)->Ok_0;
    let gm = sem_scalar(n.g_expr, img)->Ok_0;
    let bm = sem_scalar(n.b_expr, img)->Ok_0;
    let am = sem_scalar(n.a_expr, img)->Ok_0;
    assert(sem_scalar(n.x_expr, img) is Ok);
    assert(sem_scalar(n.y_expr, img) is Ok);
    assert(sem_scalar(n.r_expr, img) is Ok);
    assert(sem_scalar(n.g_expr, img) is Ok);
    assert(sem_scalar(n.b_expr, img) is Ok);
    assert(sem_scalar_node(ScalarNode::Integer(255), img) is Ok);
    assert(sem_scalar(n.a_expr, img) is Ok);
    assert(xm.dom() =~= img.dom());
    assert(ym.dom() =~= img.dom());
    assert(rm.dom() =~= img.dom());
    assert(gm.dom() =~= img.dom());
    assert(bm.dom() =~= img.dom());
    assert(am.dom() =~= img.dom());
    let pm = Map::new(
        |l: Loc| img.contains_key(l),
        |l: Loc| (img[l].0, built_pixel(xm, ym, rm, gm, bm, am, l)),
    );
    assert(sem_pixel(PixelExprType::Explicit(Box::new(n)), img) == Ok::<Pixels, crate::error::EvalError>(pm));
    assert forall|l: Loc| #[trigger] img.contains_key(l) implies img[l].0.loc() == l && pm[l].1 == img[l].0 by {
        let p = img[l].0;
        lemma_int_round_trip(p.x as int);
        lemma_int_round_trip(p.y as int);
        lemma_int_round_trip(p.c[0] as int);
        lemma_int_round_trip(p.c[1] as int);
        lemma_int_round_trip(p.c[2] as int);
        lemma_int_round_trip(255);
        let q = pm[l].1;
        assert(q.x == p.x);
        assert(q.y == p.y);
        assert(q.c =~= p.c);
    }
    assert(pm.dom() =~= img.dom());
    lemma_gather_own(img, pm);
}

/// None of the pixel operations moves a location: each keeps the locations it was given.
pub proof fn lemma_shape_invariance(m: Pixels, op: PixelMap, img: Img)
    ensures
        map_after(op, m).dom() == m.dom(),
        norm_map(m).dom() == m.dom(),
        negate_map(img).dom() == img.dom(),
{
    assert(map_after(op, m).dom() =~= m.dom());
    assert(norm_map(m).dom() =~= m.dom());
    assert(negate_map(img).dom() =~= img.dom());
}

/// A match expression without a comparison matches every location and leaves nothing
/// for the else branch.
pub proof fn lemma_match_without_comparator(m: MatchExprOpNode, img: Img)
    requires
        m.match_comparator_node is None,
    ensures
        sem_partition(m, img) == Ok::<(Img, Img), crate::error::EvalError>((img, Map::empty())),
{
}

pub open spec fn no_locs<T>(m: Map<Loc, (IqPixel, T)>) -> bool {
    m.dom() == Set::<Loc>::empty()
}

proof fn lemma_reduce_empty(op: Pointwise, s: Seq<Scalars>)
    requires
        forall|i: int| 0 <= i < s.len() ==> no_locs(#[trigger] s[i]),
    ensures
        reduce_map(op, s) matches Some(m) ==> no_locs(m),
    decreases s.len(),
{
    if s.len() > 1 {
        lemma_reduce_empty(op, s.drop_last());
        if let Some(m) = reduce_map(op, s.drop_last()) {
            assert(crate::ops::combine_map(op, m, s.last()).dom() =~= m.dom());
        }
    }
}

proof fn lemma_empty_scalar(e: ScalarExprNode, img: Img)
    requires
        no_locs(img),
    ensures
        sem_scalar(e, img) matches Ok(m) ==> no_locs(m),
    decreases e,
{
    match e {
        ScalarExprNode::ScalarFn(call) => lemma_empty_scalar_fn(call, img),
        ScalarExprNode::SubExpr(b) => lemma_empty_scalar(*b, img),
        ScalarExprNode::Scalar(n) => lemma_empty_scalar_node(n, img),
        ScalarExprNode::BinaryOp(b) => lemma_empty_binary(*b, img),
    }
}

proof fn lemma_empty_scalar_all(args: Seq<ScalarExprNode>, img: Img)
    requires
        no_locs(img),
    ensures
        sem_scalar_all(args, img) matches Ok(s) ==> forall|i: int| 0 <= i < s.len() ==> no_locs(#[trigger] s[i]),
    decreases args,
{
    if args.len() > 0 {
        lemma_empty_scalar_all(args.subrange(0, args.len() - 1), img);
        lemma_empty_scalar(args[args.len() - 1], img);
    }
}

proof fn lemma_empty_scalar_fn(call: ScalarFnCall, img: Img)
    requires
        no_locs(img),
    ensures
        sem_scalar_fn(call, img) matches Ok(m) ==> no_locs(m),
    decreases call,
{
    match call.op {
        ScalarFnOp::Min => {
            lemma_empty_scalar_all(call.args@, img);
            if let Ok(s) = sem_scalar_all(call.args@, img) {
                lemma_reduce_empty(Pointwise::Min, s);
            }
        },
        ScalarFnOp::Max => {
            lemma_empty_scalar_all(call.args@, img);
            if let Ok(s) = sem_scalar_all(call.args@, img) {
                lemma_reduce_empty(Pointwise::Max, s);
            }
        },
        _ => {
            if call.args@.len() > 0 {
                lemma_empty_scalar(call.args@[0], img);
                if let Ok(m) = sem_scalar(call.args@[0], img) {
                    assert(crate::ops::square_map(m).dom() =~= m.dom());
                    assert(crate::ops::sqrt_map(m).dom() =~= m.dom());
                }
            }
        },
    }
}

proof fn lemma_empty_scalar_node(n: ScalarNode, img: Img)
    requires
        no_locs(img),
    ensures
        sem_scalar_node(n, img) matches Ok(m) ==> no_locs(m),
    decreases n,
{
    match n {
        ScalarNode::PixelScalar(p, attr) => {
            lemma_empty_pixel(*p, img);
            if let Ok(pm) = sem_pixel(*p, img) {
                if let Some(a) = attr_of(attr.key@) {
                    assert(attr_map(pm, a).dom() =~= pm.dom());
                }
            }
        },
        ScalarNode::Decimal(v) => {
            assert(crate::semantics::broadcast(img, v).dom() =~= img.dom());
        },
        ScalarNode::Integer(i) => {
            assert(crate::semantics::broadcast(img, Num::of_int_spec(i as int)).dom() =~= img.dom());
        },
        ScalarNode::SelectorScalar(sel) => {
            if let Ok(sub) = crate::semantics::sem_selector(sel.selector_ctx, img) {
                if let Some(a) = attr_of(sel.accessed_attr.key@) {
                    let v = crate::attrs::context_attr(sub.dom(), a);
                    assert(crate::semantics::broadcast(img, v).dom() =~= img.dom());
                }
            }
        },
    }
}

proof fn lemma_empty_binary(b: BinaryScalarOpNode, img: Img)
    requires
        no_locs(img),
    ensures
        sem_binary(b, img) matches Ok(m) ==> no_locs(m),
    decreases b,
{
    lemma_empty_scalar(b.lhs, img);
    if let Ok(l) = sem_scalar(b.lhs, img) {
        if let Ok(r) = sem_scalar(b.rhs, img) {
            assert(crate::ops::combine_map(crate::semantics::pointwise_of(b.op), l, r).dom() =~= l.dom());
        }
    }
}

proof fn lemma_empty_pixel(p: PixelExprType, img: Img)
    requires
        no_locs(img),
    ensures
        sem_pixel(p, img) matches Ok(m) ==> no_locs(m),
    decreases p,
{
    match p {
        PixelExprType::Explicit(node) => {
            if let Ok(m) = sem_pixel(p, img) {
                assert(m.dom() =~= img.dom());
            }
        },
        PixelExprType::CurrentPixel => {
            assert(img.map_values(|e: (IqPixel, ())| (e.0, e.0)).dom() =~= img.dom());
        },
        PixelExprType::FnCall(call) => lemma_empty_pixel_fn(call, img),
    }
}

proof fn lemma_empty_pixel_all(args: Seq<PixelExprType>, img: Img)
    requires
        no_locs(img),
    ensures
        sem_pixel_all(args, img) matches Ok(s) ==> forall|i: int| 0 <= i < s.len() ==> no_locs(#[trigger] s[i]),
    decreases args,
{
    if args.len() > 0 {
        lemma_empty_pixel_all(args.subrange(0, args.len() - 1), img);
        lemma_empty_pixel(args[args.len() - 1], img);
    }
}

proof fn lemma_empty_pixel_fn(call: PixelFnCall, img: Img)
    requires
        no_locs(img),
    ensures
        sem_pixel_fn(call, img) matches Ok(m) ==> no_locs(m),
    decreases call,
{
    match call.op {
        PixelFnOp::Center => {
            assert(crate::semantics::broadcast(img, crate::context::center_of(img)).dom() =~= img.dom());
        },
        PixelFnOp::ColorAdd => {
            lemma_empty_pixel_all(call.args@, img);
            if let Ok(s) = sem_pixel_all(call.args@, img) {
                if s.len() > 0 {
                    assert(no_locs(s[0]));
                    assert(add_map(s).dom() =~= s[0].dom());
                } else {
                    assert(add_map(s).dom() =~= Set::<Loc>::empty());
                }
            }
        },
        _ => {
            if call.args@.len() > 0 {
                lemma_empty_pixel(call.args@[0], img);
                if let Ok(m) = sem_pixel(call.args@[0], img) {
                    assert(crate::semantics::unary_pixel_op(call.op, m).dom() =~= m.dom());
                }
            }
        },
    }
}

proof fn lemma_empty_operator(op: OperatorNode, img: Img)
    requires
        no_locs(img),
    ensures
        sem_operator(op, img) matches Ok(m) ==> no_locs(m),
    decreases op,
{
    match op {
        OperatorNode::UnaryNegationOp => {
            assert(negate_map(img).dom() =~= img.dom());
        },
        OperatorNode::MatchExprOp(m) => lemma_empty_match(m, img),
    }
}

proof fn lemma_empty_partition(m: MatchExprOpNode, img: Img)
    requires
        no_locs(img),
    ensures
        sem_partition(m, img) matches Ok(p) ==> no_locs(p.0) && no_locs(p.1),
    decreases m,
{
    match m.match_comparator_node {
        None => {
            assert(Map::<Loc, (IqPixel, ())>::empty().dom() =~= Set::<Loc>::empty());
        },
        Some(cmp) => match (m.match_value, cmp.cmp_val) {
            (MatchComparisonValue::Scalar(l), MatchComparisonValue::Scalar(r)) => {
                lemma_empty_scalar(l, img);
                if let Ok(lm) = sem_scalar(l, img) {
                    if let Ok(rm) = sem_scalar(r, img) {
                        assert(crate::semantics::part_num(img, lm, rm, cmp.op_type, true).dom() =~= Set::<Loc>::empty());
                        assert(crate::semantics::part_num(img, lm, rm, cmp.op_type, false).dom() =~= Set::<Loc>::empty());
                    }
                }
            },
            (MatchComparisonValue::Pixel(l), MatchComparisonValue::Pixel(r)) => {
                lemma_empty_pixel(l, img);
                if let Ok(lm) = sem_pixel(l, img) {
                    if let Ok(rm) = sem_pixel(r, img) {
                        assert(crate::semantics::part_pixel(img, lm, rm, cmp.op_type, true).dom() =~= Set::<Loc>::empty());
                        assert(crate::semantics::part_pixel(img, lm, rm, cmp.op_type, false).dom() =~= Set::<Loc>::empty());
                    }
                }
            },
            _ => {},
        },
    }
}

proof fn lemma_empty_match(m: MatchExprOpNode, img: Img)
    requires
        no_locs(img),
    ensures
        sem_match(m, img) matches Ok(r) ==> no_locs(r),
    decreases m,
{
    lemma_empty_partition(m, img);
    if let Ok(parts) = sem_partition(m, img) {
        lemma_empty_return(*m.match_return_value_node, parts.0);
        if let Some(eb) = m.else_return_value_node {
            lemma_empty_return(*eb, parts.1);
            if let Ok(mo) = sem_return(*m.match_return_value_node, parts.0) {
                if let Ok(eo) = sem_return(*eb, parts.1) {
                    assert(mo.union_prefer_right(eo).dom() =~= Set::<Loc>::empty());
                }
            }
        }
    }
}

proof fn lemma_empty_return(rv: MatchReturnValue, img: Img)
    requires
        no_locs(img),
    ensures
        sem_return(rv, img) matches Ok(m) ==> no_locs(m),
    decreases rv,
{
    match rv {
        MatchReturnValue::Pixel(p) => {
            lemma_empty_pixel(p, img);
            if let Ok(pm) = sem_pixel(p, img) {
                assert(gather(pm).dom() =~= Set::<Loc>::empty());
            }
        },
        MatchReturnValue::Operator(op) => lemma_empty_operator(op, img),
    }
}

proof fn lemma_empty_ops(ops: Seq<OperatorNode>, img: Img)
    requires
        no_locs(img),
    ensures
        sem_ops(ops, img) matches Ok(m) ==> no_locs(m),
    decreases ops.len(),
{
    if ops.len() > 0 {
        lemma_empty_ops(ops.drop_last(), img);
        if let Ok(c) = sem_ops(ops.drop_last(), img) {
            lemma_empty_operator(ops.last(), c);
        }
    }
}

proof fn lemma_empty_exprs(es: Seq<ExprNode>, img: Img)
    requires
        no_locs(img),
    ensures
        sem_exprs(es, img) matches Ok(s) ==> forall|i: int| 0 <= i < s.len() ==> no_locs(#[trigger] s[i]),
    decreases es.len(),
{
    if es.len() > 0 {
        lemma_empty_exprs(es.drop_last(), img);
        let e = es.last();
        match e.selector_ctx {
            None => lemma_empty_ops(e.op_nodes@, img),
            Some(sel) => {
                if let Ok(st) = crate::semantics::sem_selector(sel, img) {
                    assert(st.dom() =~= Set::<Loc>::empty());
                    lemma_empty_ops(e.op_nodes@, st);
                }
            },
        }
    }
}

proof fn lemma_merge_empty(s: Seq<Img>)
    requires
        forall|i: int| 0 <= i < s.len() ==> no_locs(#[trigger] s[i]),
    ensures
        no_locs(merge_all(s)),
    decreases s.len(),
{
    if s.len() == 0 {
        assert(Map::<Loc, (IqPixel, ())>::empty().dom() =~= Set::<Loc>::empty());
    } else {
        lemma_merge_empty(s.drop_last());
        assert(no_locs(s.last()));
        assert(merge_all(s).dom() =~= Set::<Loc>::empty());
    }
}

/// On an image without pixels, every script that succeeds gives an image without pixels.
pub proof fn lemma_empty_image(root: IqAstRootNode, img: Img)
    requires
        no_locs(img),
    ensures
        sem_root(root, img) matches Ok(m) ==> no_locs(m),
{
    lemma_empty_exprs(root.exprs@, img);
    if let Ok(s) = sem_exprs(root.exprs@, img) {
        lemma_merge_empty(s);
    }
}

/// The values of a map that holds each value at its own location, gathered, are those values.
proof fn lemma_gather_in_place(pm: Pixels)
    requires
        forall|l: Loc| #[trigger] pm.contains_key(l) ==> pm[l].1.loc() == l,
    ensures
        gather(pm) == pm.map_values(|e: (IqPixel, IqPixel)| (e.1, ())),
{
    assert forall|l: Loc| #[trigger] pm.contains_key(l) implies source(pm, l) == l by {
        assert(is_source(pm, l, l));
        let s = source(pm, l);
        if s != l {
            assert(pm.contains_key(s) && pm[s].1.loc() == l);
        }
    }
    assert forall|l: Loc| gather(pm).contains_key(l) <==> pm.contains_key(l) by {
        if pm.contains_key(l) {
            assert(pm.contains_key(l) && pm[l].1.loc() == l);
        }
    }
    assert(gather(pm) =~= pm.map_values(|e: (IqPixel, IqPixel)| (e.1, ())));
}

/// `_ => color_scale(_, f)`.
pub open spec fn is_scale_rule(op: OperatorNode, f: Num) -> bool {
    match op {
        OperatorNode::MatchExprOp(m) => {
            &&& m.match_value matches MatchComparisonValue::Pixel(PixelExprType::CurrentPixel)
            &&& m.match_comparator_node is None
            &&& m.else_return_value_node is None
            &&& match *m.match_return_value_node {
                MatchReturnValue::Pixel(PixelExprType::FnCall(call)) => {
                    &&& call.op == PixelFnOp::ColorScale(f)
                    &&& call.args@.len() == 1
                    &&& call.args@[0] is CurrentPixel
                },
                _ => false,
            }
        },
        _ => false,
    }
}

/// The script `_ => color_scale(_, 0)` turns red, green and blue of every pixel to 0 and
/// keeps its alpha.
pub proof fn lemma_scale_by_zero(root: IqAstRootNode, op: OperatorNode, c: BasicContext)
    requires
        c.wf(),
        is_single_rule(root, op),
        is_scale_rule(op, Num::Fixed(0)),
    ensures
        sem_root(root, c@) == Ok::<Img, crate::error::EvalError>(
            Map::new(
                |l: Loc| c@.contains_key(l),
                |l: Loc| (IqPixel { y: l.0, x: l.1, c: [0u8, 0u8, 0u8, c@[l].0.c[3]] }, ()),
            ),
        ),
{
    broadcast use vstd::array::group_array_axioms;

    c.lemma_wf();
    let img = c@;
    lemma_single_expr(root, img);
    lemma_single_op(root.exprs@[0].op_nodes@, img);
    let m = op->MatchExprOp_0;
    assert(sem_partition(m, img) == Ok::<(Img, Img), crate::error::EvalError>((img, Map::empty())));
    let call = match *m.match_return_value_node {
        MatchReturnValue::Pixel(PixelExprType::FnCall(call)) => call,
        _ => arbitrary(),
    };
    let cur = img.map_values(|e: (IqPixel, ())| (e.0, e.0));
    assert(sem_pixel(call.args@[0], img) == Ok::<Pixels, crate::error::EvalError>(cur));
    let pm = map_after(PixelMap::Scale(Num::Fixed(0)), cur);
    assert(sem_pixel_fn(call, img) == Ok::<Pixels, crate::error::EvalError>(pm));
    assert(sem_pixel(PixelExprType::FnCall(call), img) == Ok::<Pixels, crate::error::EvalError>(pm));
    assert forall|v: u8| #[trigger] crate::ctx_ops::scaled(v, Num::Fixed(0)) == 0 by {
        assert(Num::of_int_spec(v as int) == Num::Fixed((v * 1000) as i64));
        assert((v as int * 1000) * 0 == 0);
        assert(crate::num::trunc_div(0, 1000) == 0);
    }
    assert forall|l: Loc| #[trigger] pm.contains_key(l) implies pm[l].1.loc() == l by {}
    lemma_gather_in_place(pm);
    let want = Map::new(
        |l: Loc| c@.contains_key(l),
        |l: Loc| (IqPixel { y: l.0, x: l.1, c: [0u8, 0u8, 0u8, c@[l].0.c[3]] }, ()),
    );
    assert forall|l: Loc| #[trigger] img.contains_key(l) implies pm[l].1 == want[l].0 by {
        assert(pm[l].1.c =~= want[l].0.c);
    }
    assert(gather(pm) =~= want);
}

/// `[lo:hi]` with both bounds written as integers.
pub open spec fn is_literal_range(r: Option<Box<SliceRangeNode>>, lo: u32, hi: u32) -> bool {
    match r {
        Some(b) => {
            &&& b.lower_bound == Some(ScalarExprNode::Scalar(ScalarNode::Integer(lo as i64)))
            &&& b.upper_bound == Some(ScalarExprNode::Scalar(ScalarNode::Integer(hi as i64)))
        },
        None => false,
    }
}

/// A match expression whose matched branch returns `_` and that has no else branch.
pub open spec fn keeps_matched(op: OperatorNode) -> bool {
    match op {
        OperatorNode::MatchExprOp(m) => {
            &&& *m.match_return_value_node matches MatchReturnValue::Pixel(PixelExprType::CurrentPixel)
            &&& m.else_return_value_node is None
        },
        _ => false,
    }
}

proof fn lemma_literal_bound(v: u32, img: Img)
    requires
        img.dom().finite(),
        img.dom().len() > 0,
    ensures
        sem_bound(Some(ScalarExprNode::Scalar(ScalarNode::Integer(v as i64))), img) == Ok::<Option<u32>, crate::error::EvalError>(Some(v)),
{
    let n = ScalarNode::Integer(v as i64);
    let b = crate::semantics::broadcast(img, Num::of_int_spec(v as int));
    assert(sem_scalar_node(n, img) == Ok::<Scalars, crate::error::EvalError>(b));
    assert(sem_scalar(ScalarExprNode::Scalar(n), img) == Ok::<Scalars, crate::error::EvalError>(b));
    assert(b.dom() =~= img.dom());
    lemma_lowest_exists(img.dom());
    lemma_int_round_trip(v as int);
    assert(b[lowest(b.dom())].1 == Num::Fixed((v * 1000) as i64));
    assert(bound_of(b) == Some(v));
}

proof fn lemma_literal_range(r: SliceRangeNode, lo: u32, hi: u32, img: Img)
    requires
        is_literal_range(Some(Box::new(r)), lo, hi),
        img.dom().finite(),
        img.dom().len() > 0,
    ensures
        sem_range(r, img) == Ok::<(Option<u32>, Option<u32>), crate::error::EvalError>((Some(lo), Some(hi))),
{
    lemma_literal_bound(lo, img);
    lemma_literal_bound(hi, img);
}

/// A match expression that returns `_` without an else branch only keeps pixels of its
/// input, each as it was.
proof fn lemma_keeps_matched(m: MatchExprOpNode, img: Img)
    requires
        keeps_matched(OperatorNode::MatchExprOp(m)),
        forall|l: Loc| #[trigger] img.contains_key(l) ==> img[l].0.loc() == l,
    ensures
        sem_match(m, img) matches Ok(r) ==> forall|l: Loc| #[trigger] r.contains_key(l) ==> img.contains_key(l) && r[l] == img[l],
{
    if let Ok(parts) = sem_partition(m, img) {
        let p0 = parts.0;
        assert(forall|l: Loc| #[trigger] p0.contains_key(l) ==> img.contains_key(l) && p0[l] == img[l]);
        let cur = p0.map_values(|e: (IqPixel, ())| (e.0, e.0));
        assert(sem_pixel(PixelExprType::CurrentPixel, p0) == Ok::<Pixels, crate::error::EvalError>(cur));
        assert(cur.dom() =~= p0.dom());
        lemma_gather_own(p0, cur);
    }
}

/// An expression with the selector `[y0:y1, x0:x1]` whose one operator returns `_`
/// writes only inside those bounds, and only the image's own pixels.
pub proof fn lemma_selector_confines(e: ExprNode, c: BasicContext, y0: u32, y1: u32, x0: u32, x1: u32)
    requires
        c.wf(),
        e.selector_ctx matches Some(sel) && is_literal_range(sel.y_slice_range, y0, y1)
            && is_literal_range(sel.x_slice_range, x0, x1),
        e.op_nodes@.len() == 1,
        keeps_matched(e.op_nodes@[0]),
    ensures
        sem_expr(e, c@) matches Ok(m) ==> forall|l: Loc| #[trigger] m.contains_key(l) ==> within(l, y0, y1, x0, x1)
            && c@.contains_key(l) && m[l] == c@[l],
{
    c.lemma_wf();
    let img = c@;
    let sel = e.selector_ctx->Some_0;
    if let Ok(st) = sem_selector(sel, img) {
        lemma_single_op(e.op_nodes@, st);
        if img.dom().len() == 0 {
            assert(img.dom() =~= Set::<Loc>::empty());
            assert(st.dom() =~= Set::<Loc>::empty());
            lemma_empty_ops(e.op_nodes@, st);
        } else {
            lemma_literal_range(*sel.y_slice_range->Some_0, y0, y1, img);
            lemma_literal_range(*sel.x_slice_range->Some_0, x0, x1, img);
            assert(st == crate::context::sub_map(img, (Some(y0), Some(y1)), (Some(x0), Some(x1))));
            assert(forall|l: Loc| #[trigger] st.contains_key(l) ==> within(l, y0, y1, x0, x1) && img.contains_key(l) && st[l] == img[l]);
            lemma_keeps_matched(e.op_nodes@[0]->MatchExprOp_0, st);
        }
    }
}

/// Leaving out a map that lacks `l` changes nothing at `l` in the merge.
pub proof fn lemma_merge_skips(s: Seq<Img>, k: int, l: Loc)
    requires
        0 <= k < s.len(),
        !s[k].contains_key(l),
    ensures
        merge_all(s).contains_key(l) == merge_all(s.remove(k)).contains_key(l),
        merge_all(s).contains_key(l) ==> merge_all(s)[l] == merge_all(s.remove(k))[l],
    decreases s.len(),
{
    if k == s.len() - 1 {
        assert(s.remove(k) =~= s.drop_last());
    } else {
        lemma_merge_skips(s.drop_last(), k, l);
        assert(s.remove(k).drop_last() =~= s.drop_last().remove(k));
        assert(s.remove(k).last() == s.last());
    }
}

proof fn lemma_exprs_each(es: Seq<ExprNode>, img: Img)
    ensures
        sem_exprs(es, img) matches Ok(s) ==> s.len() == es.len() && forall|i: int|
            0 <= i < es.len() ==> sem_expr(#[trigger] es[i], img) == Ok::<Img, crate::error::EvalError>(s[i]),
    decreases es.len(),
{
    if es.len() > 0 {
        lemma_exprs_each(es.drop_last(), img);
        if let Ok(s) = sem_exprs(es, img) {
            assert forall|i: int| 0 <= i < es.len() implies sem_expr(#[trigger] es[i], img) == Ok::<Img, crate::error::EvalError>(s[i]) by {
                if i < es.len() - 1 {
                    assert(es.drop_last()[i] == es[i]);
                }
            }
        }
    }
}

/// In a script, an expression with the selector `[y0:y1, x0:x1]` whose one operator returns
/// `_` leaves every location outside those bounds to the other expressions: there the
/// script's output is the merge of theirs, in order.
pub proof fn lemma_selector_in_script(
    root: IqAstRootNode,
    k: int,
    c: BasicContext,
    y0: u32,
    y1: u32,
    x0: u32,
    x1: u32,
)
    requires
        c.wf(),
        0 <= k < root.exprs@.len(),
        root.exprs@[k].selector_ctx matches Some(sel) && is_literal_range(sel.y_slice_range, y0, y1)
            && is_literal_range(sel.x_slice_range, x0, x1),
        root.exprs@[k].op_nodes@.len() == 1,
        keeps_matched(root.exprs@[k].op_nodes@[0]),
    ensures
        sem_exprs(root.exprs@, c@) matches Ok(s) ==> {
            &&& s.len() == root.exprs@.len()
            &&& forall|i: int| 0 <= i < s.len() ==> sem_expr(#[trigger] root.exprs@[i], c@) == Ok::<Img, crate::error::EvalError>(s[i])
            &&& sem_root(root, c@) == Ok::<Img, crate::error::EvalError>(merge_all(s))
            &&& forall|l: Loc| !within(l, y0, y1, x0, x1) ==> {
                &&& (#[trigger] merge_all(s).contains_key(l)) == merge_all(s.remove(k)).contains_key(l)
                &&& merge_all(s).contains_key(l) ==> merge_all(s)[l] == merge_all(s.remove(k))[l]
            }
        },
{
    lemma_exprs_each(root.exprs@, c@);
    if let Ok(s) = sem_exprs(root.exprs@, c@) {
        lemma_selector_confines(root.exprs@[k], c, y0, y1, x0, x1);
        assert(sem_expr(root.exprs@[k], c@) == Ok::<Img, crate::error::EvalError>(s[k]));
        assert forall|l: Loc| !within(l, y0, y1, x0, x1) implies {
            &&& (#[trigger] merge_all(s).contains_key(l)) == merge_all(s.remove(k)).contains_key(l)
            &&& merge_all(s).contains_key(l) ==> merge_all(s)[l] == merge_all(s.remove(k))[l]
        } by {
            lemma_merge_skips(s, k, l);
        }
    }
}

} // verus!
