use iq::ast::{
    AttrAccessNode, ExprNode, IqAstRootNode, MatchComparatorNode, MatchComparisonValue,
    MatchExprOpNode, MatchOpType, MatchReturnValue, OperatorNode, PixelExprType, PixelFnCall,
    PixelFnOp, PixelNode, ScalarExprNode, ScalarFnCall, ScalarFnOp, ScalarNode, SelectorCtxNode,
    SliceRangeNode, BinaryOpType, BinaryScalarOpNode,
};
use iq::context::{BasicContext, IqPixel};
use iq::error::EvalError;
use iq::eval::{execute, Evalulate};
use iq::num::Num;

fn lit(v: i64) -> ScalarExprNode {
    ScalarExprNode::Scalar(ScalarNode::Integer(v))
}

fn own(key: &str) -> ScalarExprNode {
    ScalarExprNode::Scalar(ScalarNode::PixelScalar(
        Box::new(PixelExprType::CurrentPixel),
        AttrAccessNode { key: key.to_string() },
    ))
}

fn rule(m: MatchExprOpNode) -> IqAstRootNode {
    IqAstRootNode {
        exprs: vec![ExprNode { selector_ctx: None, op_nodes: vec![OperatorNode::MatchExprOp(m)] }],
    }
}

fn returning(p: PixelExprType) -> MatchExprOpNode {
    MatchExprOpNode {
        match_value: MatchComparisonValue::Pixel(PixelExprType::CurrentPixel),
        match_comparator_node: None,
        match_return_value_node: Box::new(MatchReturnValue::Pixel(p)),
        else_return_value_node: None,
    }
}

/// `_ => _`
fn identity() -> IqAstRootNode {
    rule(returning(PixelExprType::CurrentPixel))
}

/// `_ => p(_.y, _.x, _.r, _.g, _.b)`
fn identity_rewrite() -> IqAstRootNode {
    rule(returning(PixelExprType::Explicit(Box::new(PixelNode {
        y_expr: own("y"),
        x_expr: own("x"),
        r_expr: own("r"),
        g_expr: own("g"),
        b_expr: own("b"),
        a_expr: lit(255),
    }))))
}

/// `_ => color_scale(_, factor)`
fn color_scale_by(factor: Num) -> IqAstRootNode {
    rule(returning(PixelExprType::FnCall(PixelFnCall {
        op: PixelFnOp::ColorScale(factor),
        args: vec![PixelExprType::CurrentPixel],
    })))
}

#[test]
fn handles_empty_input() {
    assert_eq!(
        BasicContext::empty(),
        execute(BasicContext::empty(), &IqAstRootNode { exprs: vec![] }).unwrap()
    );
}

#[test]
fn handles_identity() {
    assert_eq!(BasicContext::empty(), execute(BasicContext::empty(), &identity()).unwrap());
    assert_eq!(BasicContext::blank(10, 10), execute(BasicContext::blank(10, 10), &identity()).unwrap());
    assert_eq!(
        BasicContext::blank(10, 10),
        execute(BasicContext::blank(10, 10), &identity_rewrite()).unwrap()
    );
}

#[test]
fn handles_context_ops() {
    assert_eq!(
        BasicContext::blank_with_default(10, 10, [0, 0, 0, 255]),
        execute(
            BasicContext::blank_with_default(10, 10, [255, 255, 255, 255]),
            &color_scale_by(Num::Fixed(0))
        )
        .unwrap()
    );
}

#[test]
fn identity_keeps_a_coloured_image() {
    let mut img = BasicContext::empty();
    img.insert(IqPixel { x: 0, y: 0, c: [1, 2, 3, 4] });
    img.insert(IqPixel { x: 5, y: 2, c: [200, 100, 50, 0] });
    let out = execute(img.clone(), &identity()).unwrap();
    assert_eq!(out, img);
}

#[test]
fn identity_rewrite_sets_alpha_to_opaque() {
    let mut img = BasicContext::empty();
    img.insert(IqPixel { x: 1, y: 1, c: [10, 20, 30, 40] });
    let out = execute(img, &identity_rewrite()).unwrap();
    let mut want = BasicContext::empty();
    want.insert(IqPixel { x: 1, y: 1, c: [10, 20, 30, 255] });
    assert_eq!(out, want);
}

#[test]
fn empty_image_gives_empty_output() {
    let out = execute(BasicContext::empty(), &color_scale_by(Num::Fixed(500))).unwrap();
    assert_eq!(out.count(), 0);
    let out = execute(BasicContext::empty(), &identity_rewrite()).unwrap();
    assert_eq!(out.count(), 0);
}

#[test]
fn scaling_by_half_rounds_to_nearest() {
    let out = execute(BasicContext::blank(2, 3), &color_scale_by(Num::Fixed(500))).unwrap();
    assert_eq!(out, BasicContext::blank_with_default(2, 3, [128, 128, 128, 255]));
}

fn sq(e: ScalarExprNode) -> ScalarExprNode {
    ScalarExprNode::ScalarFn(ScalarFnCall { op: ScalarFnOp::Square, args: vec![e] })
}

fn minus(l: ScalarExprNode, r: ScalarExprNode) -> ScalarExprNode {
    ScalarExprNode::BinaryOp(Box::new(BinaryScalarOpNode { lhs: l, op: BinaryOpType::Sub, rhs: r }))
}

fn center_attr(key: &str) -> ScalarExprNode {
    ScalarExprNode::Scalar(ScalarNode::PixelScalar(
        Box::new(PixelExprType::FnCall(PixelFnCall { op: PixelFnOp::Center, args: vec![] })),
        AttrAccessNode { key: key.to_string() },
    ))
}

fn range(lo: i64, hi: i64) -> Option<Box<SliceRangeNode>> {
    Some(Box::new(SliceRangeNode { lower_bound: Some(lit(lo)), upper_bound: Some(lit(hi)) }))
}

/// `[10:20,30:50] | sqrt(sq(_.y-[].c.y) - sq(_.x-[].c.x)) <= 1 => _`
#[test]
fn selector_limits_where_an_expression_writes() {
    let dist = ScalarExprNode::ScalarFn(ScalarFnCall {
        op: ScalarFnOp::Sqrt,
        args: vec![minus(sq(minus(own("y"), center_attr("y"))), sq(minus(own("x"), center_attr("x"))))],
    });
    let m = MatchExprOpNode {
        match_value: MatchComparisonValue::Scalar(dist),
        match_comparator_node: Some(MatchComparatorNode {
            op_type: MatchOpType::Lte,
            cmp_val: MatchComparisonValue::Scalar(lit(1)),
        }),
        match_return_value_node: Box::new(MatchReturnValue::Pixel(PixelExprType::CurrentPixel)),
        else_return_value_node: None,
    };
    let root = IqAstRootNode {
        exprs: vec![ExprNode {
            selector_ctx: Some(SelectorCtxNode { y_slice_range: range(10, 20), x_slice_range: range(30, 50) }),
            op_nodes: vec![OperatorNode::MatchExprOp(m)],
        }],
    };
    let out = execute(BasicContext::blank(60, 60), &root).unwrap();
    assert!(out.count() > 0);
    for p in out.iter() {
        assert!(10 <= p.y && p.y <= 20 && 30 <= p.x && p.x <= 50);
    }
}

#[test]
fn later_expression_wins_at_a_location() {
    let black = color_scale_by(Num::Fixed(0)).exprs.pop().unwrap();
    let keep = identity().exprs.pop().unwrap();
    let root = IqAstRootNode { exprs: vec![keep, black] };
    let out = execute(BasicContext::blank(2, 2), &root).unwrap();
    assert_eq!(out, BasicContext::blank_with_default(2, 2, [0, 0, 0, 255]));
}

#[test]
fn match_without_comparator_has_no_else_part() {
    let mut m = returning(PixelExprType::CurrentPixel);
    m.else_return_value_node = Some(Box::new(MatchReturnValue::Operator(OperatorNode::UnaryNegationOp)));
    let out = execute(BasicContext::blank(3, 3), &rule(m)).unwrap();
    assert_eq!(out, BasicContext::blank(3, 3));
}

#[test]
fn else_branch_takes_the_unmatched_pixels() {
    let m = MatchExprOpNode {
        match_value: MatchComparisonValue::Scalar(own("x")),
        match_comparator_node: Some(MatchComparatorNode {
            op_type: MatchOpType::Lt,
            cmp_val: MatchComparisonValue::Scalar(lit(1)),
        }),
        match_return_value_node: Box::new(MatchReturnValue::Pixel(PixelExprType::CurrentPixel)),
        else_return_value_node: Some(Box::new(MatchReturnValue::Operator(OperatorNode::UnaryNegationOp))),
    };
    let out = execute(BasicContext::blank(1, 2), &rule(m)).unwrap();
    let mut want = BasicContext::empty();
    want.insert(IqPixel { x: 0, y: 0, c: [255, 255, 255, 255] });
    want.insert(IqPixel { x: 1, y: 0, c: [0, 0, 0, 0] });
    assert_eq!(out, want);
}

#[test]
fn unknown_attribute_is_an_error() {
    let root = rule(returning(PixelExprType::Explicit(Box::new(PixelNode {
        y_expr: own("q"),
        x_expr: own("x"),
        r_expr: own("r"),
        g_expr: own("g"),
        b_expr: own("b"),
        a_expr: lit(255),
    }))));
    match execute(BasicContext::blank(2, 2), &root) {
        Err(EvalError::UnknownAttribute(k)) => assert_eq!(k, "q"),
        other => panic!("unexpected {:?}", other),
    }
}

#[test]
fn comparing_scalar_with_pixel_is_a_type_mismatch() {
    let m = MatchExprOpNode {
        match_value: MatchComparisonValue::Scalar(lit(1)),
        match_comparator_node: Some(MatchComparatorNode {
            op_type: MatchOpType::Eq,
            cmp_val: MatchComparisonValue::Pixel(PixelExprType::CurrentPixel),
        }),
        match_return_value_node: Box::new(MatchReturnValue::Pixel(PixelExprType::CurrentPixel)),
        else_return_value_node: None,
    };
    assert!(matches!(execute(BasicContext::blank(2, 2), &rule(m)), Err(EvalError::TypeMismatch)));
}

#[test]
fn function_without_argument_fails() {
    let root = rule(returning(PixelExprType::FnCall(PixelFnCall { op: PixelFnOp::ColorNorm, args: vec![] })));
    assert!(matches!(execute(BasicContext::blank(2, 2), &root), Err(EvalError::MissingArgument)));
}

#[test]
fn selector_width_attribute_is_broadcast() {
    let w = ScalarExprNode::Scalar(ScalarNode::SelectorScalar(iq::ast::SelectorScalarNode {
        selector_ctx: SelectorCtxNode { y_slice_range: None, x_slice_range: None },
        accessed_attr: AttrAccessNode { key: "W".to_string() },
    }));
    let root = rule(returning(PixelExprType::Explicit(Box::new(PixelNode {
        y_expr: own("y"),
        x_expr: own("x"),
        r_expr: w,
        g_expr: lit(0),
        b_expr: lit(0),
        a_expr: lit(255),
    }))));
    let out = execute(BasicContext::blank(2, 5), &root).unwrap();
    assert_eq!(out, BasicContext::blank_with_default(2, 5, [4, 0, 0, 255]));
}

#[test]
fn nodes_evaluate_through_the_trait() {
    let img = BasicContext::blank(2, 2);
    assert_eq!(identity().eval(&img).unwrap(), img);
    let scalar = lit(3).eval(&img).unwrap();
    assert_eq!(*scalar.get_annotation_at_loc((1, 1)).unwrap(), Num::Fixed(3000));
    let negated = OperatorNode::UnaryNegationOp.eval(&img).unwrap();
    assert_eq!(negated, BasicContext::blank_with_default(2, 2, [0, 0, 0, 0]));
    let r = SliceRangeNode { lower_bound: Some(lit(1)), upper_bound: None }.eval(&img).unwrap();
    assert_eq!(r, (Some(1), None));
}
