use iq::attrs::{access_scalar_annotated_ctx_attr, access_scalar_attr};
use iq::context::{AnnotatedPixelContext, AnnotatedScalarContext, BasicContext, IqPixel};
use iq::ctx_ops::{alpha_blend, center, color_add, color_norm, color_scale, neighbors};
use iq::error::EvalError;
use iq::num::Num;
use iq::ops::{add, div, max, min, mul, negate, sqrt, square, sub};

fn px(y: u32, x: u32, c: [u8; 4]) -> IqPixel {
    IqPixel { x, y, c }
}

fn scalars(vals: &[(u32, u32, i64)]) -> AnnotatedScalarContext {
    let mut out = AnnotatedScalarContext::empty();
    for &(y, x, v) in vals {
        out.insert_with_annotation(px(y, x, [0, 0, 0, 0]), Num::Fixed(v));
    }
    out
}

fn value(c: &AnnotatedScalarContext, y: u32, x: u32) -> Num {
    *c.get_annotation_at_loc((y, x)).unwrap()
}

fn pixels(vals: &[(u32, u32, [u8; 4])]) -> AnnotatedPixelContext {
    let mut out = AnnotatedPixelContext::empty();
    for &(y, x, c) in vals {
        out.insert_with_annotation(px(y, x, c), px(y, x, c));
    }
    out
}

fn annot(c: &AnnotatedPixelContext, y: u32, x: u32) -> IqPixel {
    *c.get_annotation_at_loc((y, x)).unwrap()
}

#[test]
fn blank_covers_the_grid() {
    let b = BasicContext::blank(3, 4);
    assert_eq!(b.count(), 12);
    assert_eq!(b.x_bounds(), (0, 3));
    assert_eq!(b.y_bounds(), (0, 2));
    assert_eq!(b.width(), 3);
    assert_eq!(b.height(), 2);
    assert!(b.get_pixel((2, 3)).unwrap() == px(2, 3, [255, 255, 255, 255]));
    assert!(b.get_pixel((3, 0)).is_none());
}

#[test]
fn insert_replaces_at_the_same_location() {
    let mut b = BasicContext::empty();
    b.insert(px(1, 1, [1, 1, 1, 1]));
    b.insert(px(1, 1, [2, 2, 2, 2]));
    assert_eq!(b.count(), 1);
    assert!(b.get_pixel((1, 1)).unwrap() == px(1, 1, [2, 2, 2, 2]));
}

#[test]
fn subcontext_bounds_are_inclusive_and_default_to_the_edge() {
    let b = BasicContext::blank(5, 5);
    assert_eq!(b.subcontext((Some(1), Some(2)), (Some(3), None)).count(), 4);
    assert_eq!(b.subcontext((None, None), (None, None)).count(), 25);
    assert_eq!(b.subcontext((Some(4), Some(1)), (None, None)).count(), 0);
}

#[test]
fn select_keeps_the_locations_of_the_mask() {
    let b = BasicContext::blank(3, 3);
    let mut mask = BasicContext::empty();
    mask.insert(px(0, 0, [0, 0, 0, 0]));
    mask.insert(px(2, 2, [0, 0, 0, 0]));
    mask.insert(px(7, 7, [0, 0, 0, 0]));
    let s = b.select(mask);
    assert_eq!(s.count(), 2);
    assert!(s.get_pixel((2, 2)).unwrap() == px(2, 2, [255, 255, 255, 255]));
}

#[test]
fn from_contexts_lets_the_later_win() {
    let a = BasicContext::blank_with_default(1, 2, [1, 1, 1, 1]);
    let mut b = BasicContext::empty();
    b.insert(px(0, 1, [9, 9, 9, 9]));
    let m = BasicContext::from_contexts(vec![a, b]);
    assert_eq!(m.count(), 2);
    assert!(m.get_pixel((0, 1)).unwrap() == px(0, 1, [9, 9, 9, 9]));
    assert!(m.get_pixel((0, 0)).unwrap() == px(0, 0, [1, 1, 1, 1]));
    assert_eq!(BasicContext::from_contexts(vec![]).count(), 0);
}

#[test]
fn center_uses_the_midpoint_or_white() {
    let mut b = BasicContext::empty();
    b.insert(px(4, 6, [1, 2, 3, 4]));
    assert!(b.center() == px(2, 3, [255, 255, 255, 255]));
    b.insert(px(2, 3, [7, 7, 7, 7]));
    assert!(b.center() == px(2, 3, [7, 7, 7, 7]));
    let c = center(&b);
    assert_eq!(c.count(), 2);
    assert!(annot(&c, 4, 6) == px(2, 3, [7, 7, 7, 7]));
}

#[test]
fn like_and_first_broadcast_one_value() {
    let b = BasicContext::blank(2, 2);
    let l = AnnotatedScalarContext::like(&b, &Num::Fixed(42));
    assert_eq!(l.count(), 4);
    assert_eq!(*l.first(), Num::Fixed(42));
    assert_eq!(value(&l, 1, 1), Num::Fixed(42));
}

#[test]
fn from_iter_builds_in_order() {
    let c = BasicContext::from_iter(vec![px(0, 0, [1, 1, 1, 1]), px(0, 0, [2, 2, 2, 2]), px(1, 0, [3, 3, 3, 3])]);
    assert_eq!(c.count(), 2);
    assert!(c.get_pixel((0, 0)).unwrap() == px(0, 0, [2, 2, 2, 2]));
    let a = AnnotatedScalarContext::from_iter_with_annotation(vec![(px(0, 0, [0; 4]), Num::Fixed(5))]);
    assert_eq!(*a.get_annotation(&px(0, 0, [9; 4])).unwrap(), Num::Fixed(5));
    assert_eq!(c.iter().len(), 2);
    assert_eq!(a.iter_annotations().len(), 1);
}

#[test]
fn arithmetic_is_pointwise_and_exact() {
    let a = scalars(&[(0, 0, 1500), (0, 1, -2000)]);
    let b = scalars(&[(0, 0, 500), (0, 1, 3000)]);
    let s = add(&a, &b).unwrap();
    assert_eq!(value(&s, 0, 0), Num::Fixed(2000));
    assert_eq!(value(&s, 0, 1), Num::Fixed(1000));
    let d = sub(&a, &b).unwrap();
    assert_eq!(value(&d, 0, 1), Num::Fixed(-5000));
    let p = mul(&a, &b).unwrap();
    assert_eq!(value(&p, 0, 0), Num::Fixed(750));
    assert_eq!(value(&p, 0, 1), Num::Fixed(-6000));
    let q = div(&a, &b).unwrap();
    assert_eq!(value(&q, 0, 0), Num::Fixed(3000));
    assert_eq!(value(&q, 0, 1), Num::Fixed(-666));
}

#[test]
fn division_by_zero_is_undefined() {
    let a = scalars(&[(0, 0, 1000)]);
    let z = scalars(&[(0, 0, 0)]);
    assert_eq!(value(&div(&a, &z).unwrap(), 0, 0), Num::Undefined);
}

#[test]
fn mismatched_operands_are_incompatible() {
    let a = scalars(&[(0, 0, 1000), (0, 1, 1000)]);
    let b = scalars(&[(0, 0, 1000)]);
    assert!(matches!(add(&a, &b), Err(EvalError::IncompatibleContexts)));
    let c = scalars(&[(0, 0, 1000), (1, 0, 1000)]);
    assert!(matches!(mul(&a, &c), Err(EvalError::IncompatibleContexts)));
}

#[test]
fn min_and_max_reduce_pointwise() {
    let a = scalars(&[(0, 0, 1000), (0, 1, 5000)]);
    let b = scalars(&[(0, 0, 3000), (0, 1, 2000)]);
    let lo = min(&vec![a.clone(), b.clone()]).unwrap();
    assert_eq!(value(&lo, 0, 0), Num::Fixed(1000));
    assert_eq!(value(&lo, 0, 1), Num::Fixed(2000));
    let hi = max(&vec![a, b]).unwrap();
    assert_eq!(value(&hi, 0, 0), Num::Fixed(3000));
    assert_eq!(value(&hi, 0, 1), Num::Fixed(5000));
    assert_eq!(min(&vec![]).unwrap().count(), 0);
}

#[test]
fn square_and_root() {
    let a = scalars(&[(0, 0, 3000), (0, 1, -2000), (0, 2, 2000)]);
    let s = square(&a);
    assert_eq!(value(&s, 0, 0), Num::Fixed(9000));
    assert_eq!(value(&s, 0, 1), Num::Fixed(4000));
    let r = sqrt(&a);
    assert_eq!(value(&r, 0, 1), Num::Undefined);
    assert_eq!(value(&r, 0, 2), Num::Fixed(1414));
    assert_eq!(value(&sqrt(&s), 0, 0), Num::Fixed(3000));
}

#[test]
fn negate_twice_restores() {
    let mut b = BasicContext::empty();
    b.insert(px(0, 0, [0, 10, 200, 255]));
    let n = negate(&b);
    assert!(n.get_pixel((0, 0)).unwrap() == px(0, 0, [255, 245, 55, 0]));
    assert_eq!(negate(&n), b);
    assert!(px(3, 4, [1, 2, 3, 4]).negate() == px(3, 4, [254, 253, 252, 251]));
}

#[test]
fn pixel_ops_keep_locations() {
    let p = pixels(&[(0, 0, [100, 50, 20, 200]), (0, 1, [10, 20, 30, 40])]);
    for out in [color_scale(&p, Num::Fixed(2000)), alpha_blend(&p, Num::Fixed(500)), color_norm(&p), neighbors(&p, 0, 1)] {
        assert_eq!(out.count(), 2);
        assert!(out.get_annotation_at_loc((0, 0)).is_some());
        assert!(out.get_annotation_at_loc((0, 1)).is_some());
    }
}

#[test]
fn color_scale_clamps_and_keeps_alpha() {
    let p = pixels(&[(0, 0, [100, 200, 20, 7])]);
    assert!(annot(&color_scale(&p, Num::Fixed(2000)), 0, 0) == px(0, 0, [200, 255, 40, 7]));
    assert!(annot(&color_scale(&p, Num::Fixed(-1000)), 0, 0) == px(0, 0, [0, 0, 0, 7]));
}

#[test]
fn alpha_blend_scales_only_alpha() {
    let p = pixels(&[(0, 0, [100, 200, 20, 200])]);
    assert!(annot(&alpha_blend(&p, Num::Fixed(250)), 0, 0) == px(0, 0, [100, 200, 20, 50]));
}

#[test]
fn neighbors_read_the_offset_or_transparent_black() {
    let p = pixels(&[(0, 0, [1, 1, 1, 1]), (0, 1, [2, 2, 2, 2])]);
    let n = neighbors(&p, 0, 1);
    assert!(annot(&n, 0, 0) == px(0, 1, [2, 2, 2, 2]));
    assert!(annot(&n, 0, 1) == px(0, 2, [0, 0, 0, 0]));
    let back = neighbors(&p, 0, -1);
    assert!(annot(&back, 0, 1) == px(0, 0, [1, 1, 1, 1]));
}

#[test]
fn color_norm_stretches_each_channel() {
    let p = pixels(&[(0, 0, [10, 0, 7, 9]), (0, 1, [20, 100, 7, 8]), (0, 2, [15, 50, 7, 7])]);
    let n = color_norm(&p);
    assert!(annot(&n, 0, 0) == px(0, 0, [0, 0, 0, 9]));
    assert!(annot(&n, 0, 1) == px(0, 1, [255, 255, 0, 8]));
    assert!(annot(&n, 0, 2) == px(0, 2, [127, 127, 0, 7]));
    assert_eq!(color_norm(&AnnotatedPixelContext::empty()).count(), 0);
}

#[test]
fn color_add_sums_channels_independently() {
    let a = pixels(&[(0, 0, [10, 20, 30, 40])]);
    let b = pixels(&[(0, 0, [1, 2, 250, 99])]);
    let s = color_add(&vec![a.clone(), b]).unwrap();
    assert!(annot(&s, 0, 0) == px(0, 0, [11, 22, 255, 40]));
    let c = pixels(&[(1, 1, [1, 1, 1, 1])]);
    assert!(matches!(color_add(&vec![a, c]), Err(EvalError::IncompatibleContexts)));
    assert_eq!(color_add(&vec![]).unwrap().count(), 0);
}

#[test]
fn attributes_are_read_case_insensitively() {
    let p = pixels(&[(2, 3, [4, 5, 6, 7])]);
    let x = access_scalar_annotated_ctx_attr(&p, &"X".to_string()).unwrap();
    assert_eq!(value(&x, 2, 3), Num::Fixed(3000));
    let a = access_scalar_annotated_ctx_attr(&p, &"a".to_string()).unwrap();
    assert_eq!(value(&a, 2, 3), Num::Fixed(7000));
    assert!(matches!(access_scalar_annotated_ctx_attr(&p, &"w".to_string()), Err(EvalError::UnknownAttribute(_))));
    let b = BasicContext::blank(3, 8);
    assert_eq!(access_scalar_attr(&b, &"w".to_string()).unwrap(), Num::Fixed(7000));
    assert_eq!(access_scalar_attr(&b, &"H".to_string()).unwrap(), Num::Fixed(2000));
    assert!(matches!(access_scalar_attr(&b, &"zz".to_string()), Err(EvalError::UnknownAttribute(_))));
}

#[test]
fn fixed_point_rounding() {
    assert_eq!(Num::Fixed(2500).round_within(0, 255), 3);
    assert_eq!(Num::Fixed(-2500).round_within(-10, 10), -3);
    assert_eq!(Num::Fixed(2499).round_within(0, 255), 2);
    assert_eq!(Num::Fixed(999_000).round_within(0, 255), 255);
    assert_eq!(Num::Undefined.round_within(0, 255), 0);
    assert_eq!(Num::of_int(7), Num::Fixed(7000));
    assert_eq!(Num::of_int(i64::MAX), Num::Undefined);
    assert_eq!(Num::Fixed(i64::MAX).plus(Num::Fixed(1)), Num::Undefined);
}

#[test]
fn describe_and_copies() {
    let b = BasicContext::blank(2, 2);
    assert_eq!(b.describe(), "<details>");
    let d = b.duplicate();
    assert!(d.same_as(&b));
    let mut m = BasicContext::blank_with_default(1, 1, [1, 2, 3, 4]);
    m.merge_from(&b);
    assert_eq!(m, b);
}

#[test]
fn compatibility_needs_equal_boxes_and_counts() {
    let a = scalars(&[(0, 0, 1), (1, 1, 1)]);
    let b = scalars(&[(0, 1, 1), (1, 1, 1)]);
    let c = scalars(&[(0, 0, 1)]);
    assert!(iq::ops::are_compatible_contexts(&a, &b));
    assert!(!iq::ops::are_compatible_contexts(&a, &c));
    assert!(!a.same_locations(&b));
    assert!(a.same_locations(&a.clone()));
}

#[test]
fn alpha_blend_rounds_toward_zero() {
    let p = pixels(&[(0, 0, [9, 9, 9, 3]), (0, 1, [9, 9, 9, 255])]);
    let b = alpha_blend(&p, Num::Fixed(500));
    assert!(annot(&b, 0, 0) == px(0, 0, [9, 9, 9, 1]));
    assert!(annot(&b, 0, 1) == px(0, 1, [9, 9, 9, 127]));
    assert!(annot(&alpha_blend(&p, Num::Fixed(-1000)), 0, 0) == px(0, 0, [9, 9, 9, 0]));
}
