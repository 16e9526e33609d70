//! Pointwise operations on scalar contexts, and the negation of an image.
use crate::context::{AnnotatedScalarContext, BasicContext, Context, IqPixel, Loc, span_x, span_y};
use crate::error::EvalError;
use crate::num::Num;
use vstd::prelude::*;

verus! {

/// How two scalars at one location are combined.
#[derive(Clone, Copy, Debug, PartialEq, Eq, Structural)]
pub enum Pointwise {
    Add,
    Sub,
    Mul,
    Div,
    Min,
    Max,
}

pub open spec fn apply(op: Pointwise, a: Num, b: Num) -> Num {
    match op {
        Pointwise::Add => a.plus_spec(b),
        Pointwise::Sub => a.minus_spec(b),
        Pointwise::Mul => a.times_spec(b),
        Pointwise::Div => a.divided_by_spec(b),
        Pointwise::Min => if a.lt_spec(b) { a } else { b },
        Pointwise::Max => if b.lt_spec(a) { a } else { b },
    }
}

/// Equal bounding boxes and equal pixel counts.
pub open spec fn shape_compatible<T, U>(a: Map<Loc, (IqPixel, T)>, b: Map<Loc, (IqPixel, U)>) -> bool {
    &&& span_x(a.dom()) == span_x(b.dom())
    &&& span_y(a.dom()) == span_y(b.dom())
    &&& a.len() == b.len()
}

/// `op` applied at every location of `a`, keeping the pixels of `a`.
pub open spec fn combine_map(
    op: Pointwise,
    a: Map<Loc, (IqPixel, Num)>,
    b: Map<Loc, (IqPixel, Num)>,
) -> Map<Loc, (IqPixel, Num)> {
    Map::new(|l: Loc| a.contains_key(l), |l: Loc| (a[l].0, apply(op, a[l].1, b[l].1)))
}

/// The contexts combined pairwise from the first on; `None` where two do not cover the
/// same locations.
pub open spec fn reduce_map(op: Pointwise, s: Seq<Map<Loc, (IqPixel, Num)>>) -> Option<
    Map<Loc, (IqPixel, Num)>,
>
    decreases s.len(),
{
    if s.len() == 0 {
        Some(Map::empty())
    } else if s.len() == 1 {
        Some(s[0])
    } else {
        match reduce_map(op, s.drop_last()) {
            Some(m) => if m.dom() == s.last().dom() {
                Some(combine_map(op, m, s.last()))
            } else {
                None
            },
            None => None,
        }
    }
}

/// The scalar at every location squared.
pub open spec fn square_map(a: Map<Loc, (IqPixel, Num)>) -> Map<Loc, (IqPixel, Num)> {
    a.map_values(|e: (IqPixel, Num)| (e.0, e.1.times_spec(e.1)))
}

/// The square root of the scalar at every location.
pub open spec fn sqrt_map(a: Map<Loc, (IqPixel, Num)>) -> Map<Loc, (IqPixel, Num)> {
    a.map_values(|e: (IqPixel, Num)| (e.0, e.1.sqrt_spec()))
}

/// Every pixel with its channels complemented.
pub open spec fn negate_map(a: Map<Loc, (IqPixel, ())>) -> Map<Loc, (IqPixel, ())> {
    a.map_values(|e: (IqPixel, ())| (e.0.negated(), ()))
}

/// Whether the two contexts have equal bounding boxes and pixel counts.
pub fn are_compatible_contexts<T: Copy, U: Copy>(a: &Context<T>, b: &Context<U>) -> (r: bool)
    requires
        a.wf(),
        b.wf(),
    ensures
        r == shape_compatible(a@, b@),
{
    let (ax0, ax1) = a.x_bounds();
    let (bx0, bx1) = b.x_bounds();
    let (ay0, ay1) = a.y_bounds();
    let (by0, by1) = b.y_bounds();
    ax0 == bx0 && ax1 == bx1 && ay0 == by0 && ay1 == by1 && a.count() == b.count()
}

/// `op` at every location; an error unless both cover the same locations.
pub fn combine(op: Pointwise, a: &AnnotatedScalarContext, b: &AnnotatedScalarContext) -> (r: Result<
    AnnotatedScalarContext,
    EvalError,
>)
    requires
        a.wf(),
        b.wf(),
    ensures
        r is Ok <==> a@.dom() == b@.dom(),
        r matches Ok(c) ==> c.wf() && c@ == combine_map(op, a@, b@),
        r matches Err(e) ==> e is IncompatibleContexts,
{
    proof {
        a.lemma_wf();
        b.lemma_wf();
    }
    if !are_compatible_contexts(a, b) {
        proof {
            if a@.dom() == b@.dom() {
                assert(a@.len() == a@.dom().len());
            }
        }
        return Err(EvalError::IncompatibleContexts);
    }
    let mut out = AnnotatedScalarContext::empty();
    let n = a.count();
    proof {
        a.lemma_prefix_all();
    }
    for j in 0..n
        invariant
            a.wf(),
            b.wf(),
            out.wf(),
            n == a.order().len(),
            a@.len() == b@.len(),
            forall|k: int| 0 <= k < j ==> b@.contains_key(#[trigger] a.order()[k].0.loc()),
            out@ == combine_map(op, a@.restrict(crate::context::prefix_locs(a.order(), j as int)), b@),
    {
        let e = a.entry(j);
        proof {
            a.lemma_prefix(j as int);
            a.lemma_wf();
        }
        match b.get_annotation(&e.0) {
            Some(v) => {
                let x = match op {
                    Pointwise::Add => e.1.plus(*v),
                    Pointwise::Sub => e.1.minus(*v),
                    Pointwise::Mul => e.1.times(*v),
                    Pointwise::Div => e.1.divided_by(*v),
                    Pointwise::Min => if e.1.lt(*v) { e.1 } else { *v },
                    Pointwise::Max => if v.lt(e.1) { e.1 } else { *v },
                };
                assert(x == apply(op, e.1, *v));
                assert(a@[e.0.loc()] == e);
                out.insert_with_annotation(e.0, x);
                proof {
                    assert(out@ =~= combine_map(op, a@.restrict(crate::context::prefix_locs(a.order(), j + 1)), b@));
                }
            },
            None => {
                proof {
                    assert(a@.contains_key(e.0.loc()));
                }
                return Err(EvalError::IncompatibleContexts);
            },
        }
    }
    proof {
        a.lemma_prefix_all();
        assert(a@.restrict(a@.dom()) =~= a@);
        assert(a@.dom().subset_of(b@.dom())) by {
            assert forall|l: Loc| a@.contains_key(l) implies b@.contains_key(l) by {
                let k = choose|k: int| 0 <= k < a.order().len() && #[trigger] a.order()[k].0.loc() == l;
            }
        }
        vstd::set_lib::lemma_subset_equality(a@.dom(), b@.dom());
        assert(out@ =~= combine_map(op, a@, b@));
    }
    Ok(out)
}

/// The sum at every location.
pub fn add(a: &AnnotatedScalarContext, b: &AnnotatedScalarContext) -> (r: Result<AnnotatedScalarContext, EvalError>)
    requires
        a.wf(),
        b.wf(),
    ensures
        r is Ok <==> a@.dom() == b@.dom(),
        r matches Ok(c) ==> c.wf() && c@ == combine_map(Pointwise::Add, a@, b@),
        r matches Err(e) ==> e is IncompatibleContexts,
{
    combine(Pointwise::Add, a, b)
}

/// The difference at every location.
pub fn sub(l: &AnnotatedScalarContext, r: &AnnotatedScalarContext) -> (o: Result<AnnotatedScalarContext, EvalError>)
    requires
        l.wf(),
        r.wf(),
    ensures
        o is Ok <==> l@.dom() == r@.dom(),
        o matches Ok(c) ==> c.wf() && c@ == combine_map(Pointwise::Sub, l@, r@),
        o matches Err(e) ==> e is IncompatibleContexts,
{
    combine(Pointwise::Sub, l, r)
}

/// The quotient at every location.
pub fn div(l: &AnnotatedScalarContext, r: &AnnotatedScalarContext) -> (o: Result<AnnotatedScalarContext, EvalError>)
    requires
        l.wf(),
        r.wf(),
    ensures
        o is Ok <==> l@.dom() == r@.dom(),
        o matches Ok(c) ==> c.wf() && c@ == combine_map(Pointwise::Div, l@, r@),
        o matches Err(e) ==> e is IncompatibleContexts,
{
    combine(Pointwise::Div, l, r)
}

/// The product at every location.
pub fn mul(a: &AnnotatedScalarContext, b: &AnnotatedScalarContext) -> (r: Result<AnnotatedScalarContext, EvalError>)
    requires
        a.wf(),
        b.wf(),
    ensures
        r is Ok <==> a@.dom() == b@.dom(),
        r matches Ok(c) ==> c.wf() && c@ == combine_map(Pointwise::Mul, a@, b@),
        r matches Err(e) ==> e is IncompatibleContexts,
{
    combine(Pointwise::Mul, a, b)
}

/// The contexts combined pairwise by `op` from the first on; empty for no contexts.
pub fn reduce(op: Pointwise, args: &Vec<AnnotatedScalarContext>) -> (r: Result<AnnotatedScalarContext, EvalError>)
    requires
        forall|i: int| 0 <= i < args@.len() ==> (#[trigger] args@[i]).wf(),
    ensures
        r is Ok <==> reduce_map(op, args@.map_values(|c: AnnotatedScalarContext| c@)) is Some,
        r matches Ok(c) ==> c.wf() && Some(c@) == reduce_map(op, args@.map_values(|c: AnnotatedScalarContext| c@)),
        r matches Err(e) ==> e is IncompatibleContexts,
{
    let ghost views = args@.map_values(|c: AnnotatedScalarContext| c@);
    let n = args.len();
    if n == 0 {
        return Ok(AnnotatedScalarContext::empty());
    }
    let mut acc = args[0].duplicate();
    proof {
        assert(views.subrange(0, 1).len() == 1);
    }
    let mut i: usize = 1;
    while i < n
        invariant
            1 <= i <= n,
            n == args@.len(),
            views == args@.map_values(|c: AnnotatedScalarContext| c@),
            forall|i: int| 0 <= i < args@.len() ==> (#[trigger] args@[i]).wf(),
            acc.wf(),
            reduce_map(op, views.subrange(0, i as int)) == Some(acc@),
        decreases n - i,
    {
        proof {
            assert(views.subrange(0, i + 1).drop_last() =~= views.subrange(0, i as int));
        }
        match combine(op, &acc, &args[i]) {
            Ok(c) => {
                acc = c;
            },
            Err(e) => {
                proof {
                    lemma_reduce_none_extends(op, views, i as int + 1);
                }
                return Err(e);
            },
        }
        i = i + 1;
    }
    proof {
        assert(views.subrange(0, n as int) =~= views);
    }
    Ok(acc)
}

/// Once two contexts fail to match, no longer prefix can succeed.
proof fn lemma_reduce_none_extends(op: Pointwise, s: Seq<Map<Loc, (IqPixel, Num)>>, k: int)
    requires
        2 <= k <= s.len(),
        reduce_map(op, s.subrange(0, k)) is None,
    ensures
        reduce_map(op, s) is None,
    decreases s.len() - k,
{
    if k < s.len() {
        assert(s.subrange(0, k + 1).drop_last() =~= s.subrange(0, k));
        lemma_reduce_none_extends(op, s, k + 1);
    } else {
        assert(s.subrange(0, k) =~= s);
    }
}

/// The smallest value at every location.
pub fn min(args: &Vec<AnnotatedScalarContext>) -> (r: Result<AnnotatedScalarContext, EvalError>)
    requires
        forall|i: int| 0 <= i < args@.len() ==> (#[trigger] args@[i]).wf(),
    ensures
        r is Ok <==> reduce_map(Pointwise::Min, args@.map_values(|c: AnnotatedScalarContext| c@)) is Some,
        r matches Ok(c) ==> c.wf() && Some(c@) == reduce_map(Pointwise::Min, args@.map_values(|c: AnnotatedScalarContext| c@)),
        r matches Err(e) ==> e is IncompatibleContexts,
{
    reduce(Pointwise::Min, args)
}

/// The largest value at every location.
pub fn max(args: &Vec<AnnotatedScalarContext>) -> (r: Result<AnnotatedScalarContext, EvalError>)
    requires
        forall|i: int| 0 <= i < args@.len() ==> (#[trigger] args@[i]).wf(),
    ensures
        r is Ok <==> reduce_map(Pointwise::Max, args@.map_values(|c: AnnotatedScalarContext| c@)) is Some,
        r matches Ok(c) ==> c.wf() && Some(c@) == reduce_map(Pointwise::Max, args@.map_values(|c: AnnotatedScalarContext| c@)),
        r matches Err(e) ==> e is IncompatibleContexts,
{
    reduce(Pointwise::Max, args)
}

/// The square at every location.
pub fn square(arg: &AnnotatedScalarContext) -> (r: AnnotatedScalarContext)
    requires
        arg.wf(),
    ensures
        r.wf(),
        r@ == square_map(arg@),
{
    let mut out = AnnotatedScalarContext::empty();
    let n = arg.count();
    proof {
        arg.lemma_prefix_all();
        arg.lemma_wf();
    }
    for j in 0..n
        invariant
            arg.wf(),
            out.wf(),
            n == arg.order().len(),
            out@ == square_map(arg@.restrict(crate::context::prefix_locs(arg.order(), j as int))),
    {
        let e = arg.entry(j);
        proof {
            arg.lemma_prefix(j as int);
            arg.lemma_wf();
        }
        out.insert_with_annotation(e.0, e.1.squared());
        proof {
            assert(out@ =~= square_map(arg@.restrict(crate::context::prefix_locs(arg.order(), j + 1))));
        }
    }
    proof {
        arg.lemma_prefix_all();
        assert(arg@.restrict(arg@.dom()) =~= arg@);
    }
    out
}

/// The square root at every location.
pub fn sqrt(arg: &AnnotatedScalarContext) -> (r: AnnotatedScalarContext)
    requires
        arg.wf(),
    ensures
        r.wf(),
        r@ == sqrt_map(arg@),
{
    let mut out = AnnotatedScalarContext::empty();
    let n = arg.count();
    proof {
        arg.lemma_prefix_all();
        arg.lemma_wf();
    }
    for j in 0..n
        invariant
            arg.wf(),
            out.wf(),
            n == arg.order().len(),
            out@ == sqrt_map(arg@.restrict(crate::context::prefix_locs(arg.order(), j as int))),
    {
        let e = arg.entry(j);
        proof {
            arg.lemma_prefix(j as int);
            arg.lemma_wf();
        }
        out.insert_with_annotation(e.0, e.1.sqrt());
        proof {
            assert(out@ =~= sqrt_map(arg@.restrict(crate::context::prefix_locs(arg.order(), j + 1))));
        }
    }
    proof {
        arg.lemma_prefix_all();
        assert(arg@.restrict(arg@.dom()) =~= arg@);
    }
    out
}

/// Every pixel with its four channels complemented, at the same location.
pub fn negate(arg: &BasicContext) -> (r: BasicContext)
    requires
        arg.wf(),
    ensures
        r.wf(),
        r@ == negate_map(arg@),
{
    let mut out = BasicContext::empty();
    let n = arg.count();
    proof {
        arg.lemma_prefix_all();
        arg.lemma_wf();
    }
    for j in 0..n
        invariant
            arg.wf(),
            out.wf(),
            n == arg.order().len(),
            out@ == negate_map(arg@.restrict(crate::context::prefix_locs(arg.order(), j as int))),
    {
        let e = arg.entry(j);
        proof {
            arg.lemma_prefix(j as int);
            arg.lemma_wf();
        }
        out.insert(e.0.negate());
        proof {
            assert(out@ =~= negate_map(arg@.restrict(crate::context::prefix_locs(arg.order(), j + 1))));
        }
    }
    proof {
        arg.lemma_prefix_all();
        assert(arg@.restrict(arg@.dom()) =~= arg@);
    }
    out
}

/// Negating twice gives back the image.
pub proof fn lemma_negate_twice(m: Map<Loc, (IqPixel, ())>)
    ensures
        negate_map(negate_map(m)) == m,
{
    broadcast use vstd::array::group_array_axioms;

    assert forall|l: Loc| m.contains_key(l) implies negate_map(negate_map(m))[l] == m[l] by {
        let p = m[l].0;
        assert(p.negated().negated().c =~= p.c);
    }
    assert(negate_map(negate_map(m)) =~= m);
}

} // verus!
