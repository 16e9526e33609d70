//! The evaluator: every syntax node run against an image, as `semantics` says.
use crate::ast::{
    BinaryOpType, BinaryScalarOpNode, ExprNode, IqAstRootNode, MatchComparisonValue, MatchExprOpNode,
    MatchOpType, MatchReturnValue, OperatorNode, PixelExprType, PixelFnCall, PixelFnOp, PixelNode,
    ScalarExprNode, ScalarFnCall, ScalarFnOp, ScalarNode, SelectorCtxNode, SliceRangeNode,
};
use crate::attrs;
use crate::context::{
    AnnotatedPixelContext, AnnotatedScalarContext, BasicContext, Context, IqPixel, Loc, prefix_locs,
};
use crate::ctx_ops;
use crate::ops;
use crate::ops::Pointwise;
use crate::error::EvalError;
use crate::num::Num;
use crate::semantics::{
    Img, Pixels, Scalars, bound_of, built_pixel, channels_lt, cmp_num, cmp_pixel, gather,
    is_lowest, is_source, loc_lt, lowest, part_num, part_pixel, pixel_lt, pointwise_of, sem_binary,
    sem_bound, sem_expr, sem_exprs, sem_match, sem_operator, sem_ops, sem_partition, sem_pixel,
    sem_pixel_all, sem_pixel_fn, sem_pixel_node, sem_range, sem_return, sem_root, sem_scalar,
    sem_scalar_all, sem_scalar_fn, sem_scalar_node, sem_selector, source,
};
use vstd::prelude::*;

verus! {

/// The result of an evaluation matches what the semantics gives.
pub open spec fn agrees<T: Copy>(
    r: Result<Context<T>, EvalError>,
    s: Result<Map<Loc, (IqPixel, T)>, EvalError>,
) -> bool {
    match (r, s) {
        (Ok(c), Ok(m)) => c.wf() && c@ == m,
        (Err(a), Err(b)) => a == b,
        _ => false,
    }
}

proof fn lemma_lowest_unique(d: Set<Loc>, l: Loc)
    requires
        is_lowest(d, l),
    ensures
        lowest(d) == l,
{
    let k = lowest(d);
    if k != l {
        assert(loc_lt(l, k));
        assert(loc_lt(k, l));
    }
}

fn loc_before(a: Loc, b: Loc) -> (r: bool)
    ensures
        r == loc_lt(a, b),
{
    a.0 < b.0 || (a.0 == b.0 && a.1 < b.1)
}

/// The scalar at the first location, as a coordinate; `None` for an empty context.
fn first_bound(m: &AnnotatedScalarContext) -> (r: Option<u32>)
    requires
        m.wf(),
    ensures
        r == bound_of(m@),
{
    proof {
        m.lemma_wf();
    }
    let n = m.count();
    if n == 0 {
        return None;
    }
    let mut best = m.entry(0);
    for j in 1..n
        invariant
            m.wf(),
            n == m.order().len(),
            n > 0,
            exists|k: int| 0 <= k < j && #[trigger] m.order()[k] == best,
            forall|k: int| 0 <= k < j && m.order()[k].0.loc() != best.0.loc() ==> loc_lt(best.0.loc(), #[trigger] m.order()[k].0.loc()),
    {
        let e = m.entry(j);
        if loc_before((e.0.y, e.0.x), (best.0.y, best.0.x)) {
            best = e;
        }
    }
    proof {
        m.lemma_wf();
        let k0 = choose|k: int| 0 <= k < n && #[trigger] m.order()[k] == best;
        assert(m@.contains_key(best.0.loc()));
        assert forall|l: Loc| m@.dom().contains(l) && l != best.0.loc() implies loc_lt(best.0.loc(), l) by {
            let k = choose|k: int| 0 <= k < m.order().len() && #[trigger] m.order()[k].0.loc() == l;
        }
        assert(is_lowest(m@.dom(), best.0.loc()));
        lemma_lowest_unique(m@.dom(), best.0.loc());
    }
    Some(best.1.round_within(0, 4294967295) as u32)
}

fn compare_num(op: MatchOpType, a: Num, b: Num) -> (r: bool)
    ensures
        r == cmp_num(op, a, b),
{
    match op {
        MatchOpType::Lt => a.lt(b),
        MatchOpType::Lte => a.le(b),
        MatchOpType::Gt => b.lt(a),
        MatchOpType::Gte => b.le(a),
        MatchOpType::Eq => a.eq_num(b),
        MatchOpType::Neq => !a.eq_num(b),
    }
}

fn pixel_before(a: IqPixel, b: IqPixel) -> (r: bool)
    ensures
        r == pixel_lt(a, b),
{
    let cl = a.c[0] < b.c[0] || (a.c[0] == b.c[0] && (a.c[1] < b.c[1] || (a.c[1] == b.c[1] && (
    a.c[2] < b.c[2] || (a.c[2] == b.c[2] && a.c[3] < b.c[3])))));
    assert(cl == channels_lt(a.c, b.c));
    a.x < b.x || (a.x == b.x && (a.y < b.y || (a.y == b.y && cl)))
}

fn compare_pixel(op: MatchOpType, a: IqPixel, b: IqPixel) -> (r: bool)
    ensures
        r == cmp_pixel(op, a, b),
{
    match op {
        MatchOpType::Lt => pixel_before(a, b),
        MatchOpType::Lte => pixel_before(a, b) || a == b,
        MatchOpType::Gt => pixel_before(b, a),
        MatchOpType::Gte => pixel_before(b, a) || a == b,
        MatchOpType::Eq => a == b,
        MatchOpType::Neq => !(a == b),
    }
}

/// The pixels of `l` split by the comparison with `r`: where it holds, and where not.
fn partition_num(
    img: &BasicContext,
    l: &AnnotatedScalarContext,
    r: &AnnotatedScalarContext,
    op: MatchOpType,
) -> (res: (
    BasicContext,
    BasicContext,
))
    requires
        img.wf(),
        l.wf(),
        r.wf(),
        l@.dom().subset_of(r@.dom()),
    ensures
        res.0.wf(),
        res.1.wf(),
        res.0@ == part_num(img@, l@, r@, op, true),
        res.1@ == part_num(img@, l@, r@, op, false),
{
    let mut yes = BasicContext::empty();
    let mut no = BasicContext::empty();
    let n = l.count();
    proof {
        l.lemma_prefix_all();
        l.lemma_wf();
    }
    for j in 0..n
        invariant
            img.wf(),
            l.wf(),
            r.wf(),
            l@.dom().subset_of(r@.dom()),
            yes.wf(),
            no.wf(),
            n == l.order().len(),
            yes@ == part_num(img@, l@.restrict(prefix_locs(l.order(), j as int)), r@, op, true),
            no@ == part_num(img@, l@.restrict(prefix_locs(l.order(), j as int)), r@, op, false),
    {
        let e = l.entry(j);
        proof {
            l.lemma_prefix(j as int);
            l.lemma_wf();
        }
        let b = match r.get_annotation(&e.0) {
            Some(v) => *v,
            None => Num::Undefined,
        };
        match img.get_pixel((e.0.y, e.0.x)) {
            Some(p) => {
                proof {
                    img.lemma_wf();
                    assert(img@.contains_key(e.0.loc()));
                    assert(p.loc() == e.0.loc());
                    assert(img@[e.0.loc()] == (p, ()));
                    assert(l@[e.0.loc()] == e);
                }
                if compare_num(op, e.1, b) {
                    yes.insert(p);
                } else {
                    no.insert(p);
                }
            },
            None => {},
        }
        proof {
            assert(yes@ =~= part_num(img@, l@.restrict(prefix_locs(l.order(), j + 1)), r@, op, true));
            assert(no@ =~= part_num(img@, l@.restrict(prefix_locs(l.order(), j + 1)), r@, op, false));
        }
    }
    proof {
        l.lemma_prefix_all();
        assert(l@.restrict(l@.dom()) =~= l@);
    }
    (yes, no)
}

/// The pixels of `l` split by the comparison with `r`: where it holds, and where not.
fn partition_pixel(
    img: &BasicContext,
    l: &AnnotatedPixelContext,
    r: &AnnotatedPixelContext,
    op: MatchOpType,
) -> (res: (
    BasicContext,
    BasicContext,
))
    requires
        img.wf(),
        l.wf(),
        r.wf(),
        l@.dom().subset_of(r@.dom()),
    ensures
        res.0.wf(),
        res.1.wf(),
        res.0@ == part_pixel(img@, l@, r@, op, true),
        res.1@ == part_pixel(img@, l@, r@, op, false),
{
    let mut yes = BasicContext::empty();
    let mut no = BasicContext::empty();
    let n = l.count();
    proof {
        l.lemma_prefix_all();
        l.lemma_wf();
    }
    for j in 0..n
        invariant
            img.wf(),
            l.wf(),
            r.wf(),
            l@.dom().subset_of(r@.dom()),
            yes.wf(),
            no.wf(),
            n == l.order().len(),
            yes@ == part_pixel(img@, l@.restrict(prefix_locs(l.order(), j as int)), r@, op, true),
            no@ == part_pixel(img@, l@.restrict(prefix_locs(l.order(), j as int)), r@, op, false),
    {
        let e = l.entry(j);
        proof {
            l.lemma_prefix(j as int);
            l.lemma_wf();
        }
        let b = match r.get_annotation(&e.0) {
            Some(v) => *v,
            None => e.1,
        };
        match img.get_pixel((e.0.y, e.0.x)) {
            Some(p) => {
                proof {
                    img.lemma_wf();
                    assert(img@.contains_key(e.0.loc()));
                    assert(p.loc() == e.0.loc());
                    assert(img@[e.0.loc()] == (p, ()));
                    assert(l@[e.0.loc()] == e);
                }
                if compare_pixel(op, e.1, b) {
                    yes.insert(p);
                } else {
                    no.insert(p);
                }
            },
            None => {},
        }
        proof {
            assert(yes@ =~= part_pixel(img@, l@.restrict(prefix_locs(l.order(), j + 1)), r@, op, true));
            assert(no@ =~= part_pixel(img@, l@.restrict(prefix_locs(l.order(), j + 1)), r@, op, false));
        }
    }
    proof {
        l.lemma_prefix_all();
        assert(l@.restrict(l@.dom()) =~= l@);
    }
    (yes, no)
}

proof fn lemma_source_unique(m: Pixels, l: Loc, k: Loc)
    requires
        is_source(m, l, k),
    ensures
        source(m, l) == k,
{
    let s = source(m, l);
    if s != k {
        assert(loc_lt(s, k));
        assert(loc_lt(k, s));
    }
}

/// The values of `pm` as an image, each at its own location; where several lie at one
/// location, the one held at the last location of `pm` stands.
fn gather_values(pm: &AnnotatedPixelContext) -> (r: BasicContext)
    requires
        pm.wf(),
    ensures
        r.wf(),
        r@ == gather(pm@),
{
    let mut tmp: Context<Loc> = Context::empty();
    let n = pm.count();
    let ghost mut cur: Pixels = Map::empty();
    proof {
        pm.lemma_prefix_all();
        pm.lemma_wf();
        assert(cur =~= pm@.restrict(prefix_locs(pm.order(), 0)));
    }
    let mut j: usize = 0;
    while j < n
        invariant
            pm.wf(),
            tmp.wf(),
            n == pm.order().len(),
            j <= n,
            cur == pm@.restrict(prefix_locs(pm.order(), j as int)),
            forall|l: Loc| #[trigger] tmp@.contains_key(l) <==> exists|k: Loc|
                #[trigger] cur.contains_key(k) && cur[k].1.loc() == l,
            forall|l: Loc| #[trigger] tmp@.contains_key(l) ==> is_source(cur, l, tmp@[l].1)
                && tmp@[l].0 == cur[tmp@[l].1].1,
        decreases n - j,
    {
        let e = pm.entry(j);
        let k = (e.0.y, e.0.x);
        let v = e.1;
        let l = (v.y, v.x);
        let ghost old_tmp = tmp@;
        let ghost before = cur;
        let ghost after = pm@.restrict(prefix_locs(pm.order(), j + 1));
        proof {
            pm.lemma_prefix(j as int);
            pm.lemma_wf();
            assert(after =~= before.insert(k, e));
            assert(!before.contains_key(k));
        }
        let replace = match tmp.get_annotation_at_loc(l) {
            Some(src) => loc_before(*src, k),
            None => true,
        };
        if replace {
            tmp.insert_with_annotation(v, k);
        }
        proof {
            assert forall|l2: Loc| #[trigger] tmp@.contains_key(l2) implies is_source(after, l2, tmp@[l2].1)
                && tmp@[l2].0 == after[tmp@[l2].1].1 by {
                if l2 == l {
                    if replace {
                        assert forall|q: Loc| #[trigger] after.contains_key(q) && after[q].1.loc() == l2 && q != k implies loc_lt(q, k) by {
                            assert(before.contains_key(q) && before[q].1.loc() == l2);
                            assert(old_tmp.contains_key(l2));
                            let s = old_tmp[l2].1;
                            if q != s {
                                assert(loc_lt(q, s));
                            }
                        }
                    } else {
                        let s = old_tmp[l2].1;
                        assert(s != k);
                        assert(loc_lt(k, s));
                        assert forall|q: Loc| #[trigger] after.contains_key(q) && after[q].1.loc() == l2 && q != s implies loc_lt(q, s) by {
                            if q != k {
                                assert(before.contains_key(q));
                            }
                        }
                    }
                } else {
                    assert(old_tmp.contains_key(l2));
                    let s = old_tmp[l2].1;
                    assert forall|q: Loc| #[trigger] after.contains_key(q) && after[q].1.loc() == l2 && q != s implies loc_lt(q, s) by {
                        if q != k {
                            assert(before.contains_key(q));
                        }
                    }
                }
            }
            assert forall|l2: Loc| #[trigger] tmp@.contains_key(l2) <==> exists|q: Loc|
                #[trigger] after.contains_key(q) && after[q].1.loc() == l2 by {
                if tmp@.contains_key(l2) {
                    if l2 == l {
                        assert(after.contains_key(k) && after[k].1.loc() == l2);
                    } else {
                        assert(old_tmp.contains_key(l2));
                        let q = choose|q: Loc| #[trigger] before.contains_key(q) && before[q].1.loc() == l2;
                        assert(after.contains_key(q) && after[q].1.loc() == l2);
                    }
                }
                if exists|q: Loc| #[trigger] after.contains_key(q) && after[q].1.loc() == l2 {
                    let q = choose|q: Loc| #[trigger] after.contains_key(q) && after[q].1.loc() == l2;
                    if q != k {
                        assert(before.contains_key(q) && before[q].1.loc() == l2);
                        assert(old_tmp.contains_key(l2));
                    }
                }
            }
            cur = after;
        }
        j = j + 1;
    }
    proof {
        pm.lemma_prefix_all();
        assert(cur =~= pm@);
    }
    let mut out = BasicContext::empty();
    let m = tmp.count();
    proof {
        tmp.lemma_prefix_all();
        tmp.lemma_wf();
    }
    for j in 0..m
        invariant
            tmp.wf(),
            out.wf(),
            m == tmp.order().len(),
            forall|l: Loc| #[trigger] tmp@.contains_key(l) ==> tmp@[l].0.loc() == l,
            out@ == tmp@.restrict(prefix_locs(tmp.order(), j as int)).map_values(|e: (IqPixel, Loc)| (e.0, ())),
    {
        let e = tmp.entry(j);
        proof {
            tmp.lemma_prefix(j as int);
            tmp.lemma_wf();
            assert(tmp@[e.0.loc()] == e);
        }
        out.insert(e.0);
        proof {
            assert(out@ =~= tmp@.restrict(prefix_locs(tmp.order(), j + 1)).map_values(|e: (IqPixel, Loc)| (e.0, ())));
        }
    }
    proof {
        tmp.lemma_prefix_all();
        assert(tmp@.restrict(tmp@.dom()) =~= tmp@);
        assert forall|l: Loc| #[trigger] tmp@.contains_key(l) implies source(pm@, l) == tmp@[l].1 by {
            lemma_source_unique(pm@, l, tmp@[l].1);
        }
        assert forall|l: Loc| #[trigger] out@.contains_key(l) <==> gather(pm@).contains_key(l) by {
            if tmp@.contains_key(l) {
                let q = choose|q: Loc| #[trigger] pm@.contains_key(q) && pm@[q].1.loc() == l;
            }
            if exists|q: Loc| #[trigger] pm@.contains_key(q) && pm@[q].1.loc() == l {
                let q = choose|q: Loc| #[trigger] pm@.contains_key(q) && pm@[q].1.loc() == l;
            }
        }
        assert(out@ =~= gather(pm@));
    }
    out
}

/// Whether every location of `a` is one of `b`.
fn covers<T: Copy, U: Copy>(a: &Context<T>, b: &Context<U>) -> (r: bool)
    requires
        a.wf(),
        b.wf(),
    ensures
        r == a@.dom().subset_of(b@.dom()),
{
    proof {
        a.lemma_wf();
    }
    let n = a.count();
    for j in 0..n
        invariant
            a.wf(),
            b.wf(),
            n == a.order().len(),
            forall|k: int| 0 <= k < j ==> b@.contains_key(#[trigger] a.order()[k].0.loc()),
    {
        let e = a.entry(j);
        if b.get_pixel((e.0.y, e.0.x)).is_none() {
            proof {
                a.lemma_wf();
                assert(a@.contains_key(a.order()[j as int].0.loc()));
            }
            return false;
        }
    }
    proof {
        a.lemma_wf();
        assert forall|l: Loc| a@.contains_key(l) implies b@.contains_key(l) by {
            let k = choose|k: int| 0 <= k < a.order().len() && #[trigger] a.order()[k].0.loc() == l;
        }
    }
    true
}

/// Every pixel annotated with itself.
fn current_pixels(img: &BasicContext) -> (r: AnnotatedPixelContext)
    requires
        img.wf(),
    ensures
        r.wf(),
        r@ == img@.map_values(|e: (IqPixel, ())| (e.0, e.0)),
{
    let mut out = AnnotatedPixelContext::empty();
    let n = img.count();
    proof {
        img.lemma_prefix_all();
        img.lemma_wf();
    }
    for j in 0..n
        invariant
            img.wf(),
            out.wf(),
            n == img.order().len(),
            out@ == img@.restrict(prefix_locs(img.order(), j as int)).map_values(|e: (IqPixel, ())| (e.0, e.0)),
    {
        let e = img.entry(j);
        proof {
            img.lemma_prefix(j as int);
            img.lemma_wf();
        }
        out.insert_with_annotation(e.0, e.0);
        proof {
            assert(out@ =~= img@.restrict(prefix_locs(img.order(), j + 1)).map_values(|e: (IqPixel, ())| (e.0, e.0)));
        }
    }
    proof {
        img.lemma_prefix_all();
        assert(img@.restrict(img@.dom()) =~= img@);
    }
    out
}

fn scalar_at(m: &AnnotatedScalarContext, l: Loc) -> (r: Num)
    requires
        m.wf(),
        m@.contains_key(l),
    ensures
        r == m@[l].1,
{
    match m.get_annotation_at_loc(l) {
        Some(v) => *v,
        None => Num::Undefined,
    }
}

/// At every location of `img`, the pixel made of the six scalars there.
fn build_pixels(
    img: &BasicContext,
    xm: &AnnotatedScalarContext,
    ym: &AnnotatedScalarContext,
    rm: &AnnotatedScalarContext,
    gm: &AnnotatedScalarContext,
    bm: &AnnotatedScalarContext,
    am: &AnnotatedScalarContext,
) -> (r: AnnotatedPixelContext)
    requires
        img.wf(),
        xm.wf(),
        ym.wf(),
        rm.wf(),
        gm.wf(),
        bm.wf(),
        am.wf(),
        xm@.dom() == img@.dom(),
        ym@.dom() == img@.dom(),
        rm@.dom() == img@.dom(),
        gm@.dom() == img@.dom(),
        bm@.dom() == img@.dom(),
        am@.dom() == img@.dom(),
    ensures
        r.wf(),
        r@ == Map::new(
            |l: Loc| img@.contains_key(l),
            |l: Loc| (img@[l].0, built_pixel(xm@, ym@, rm@, gm@, bm@, am@, l)),
        ),
{
    let mut out = AnnotatedPixelContext::empty();
    let n = img.count();
    proof {
        img.lemma_prefix_all();
        img.lemma_wf();
    }
    for j in 0..n
        invariant
            img.wf(),
            xm.wf(),
            ym.wf(),
            rm.wf(),
            gm.wf(),
            bm.wf(),
            am.wf(),
            xm@.dom() == img@.dom(),
            ym@.dom() == img@.dom(),
            rm@.dom() == img@.dom(),
            gm@.dom() == img@.dom(),
            bm@.dom() == img@.dom(),
            am@.dom() == img@.dom(),
            out.wf(),
            n == img.order().len(),
            out@ == Map::new(
                |l: Loc| img@.restrict(prefix_locs(img.order(), j as int)).contains_key(l),
                |l: Loc| (img@[l].0, built_pixel(xm@, ym@, rm@, gm@, bm@, am@, l)),
            ),
    {
        let e = img.entry(j);
        let l = (e.0.y, e.0.x);
        proof {
            img.lemma_prefix(j as int);
            img.lemma_wf();
        }
        let p = IqPixel {
            x: scalar_at(xm, l).round_within(0, 4294967295) as u32,
            y: scalar_at(ym, l).round_within(0, 4294967295) as u32,
            c: [
                scalar_at(rm, l).round_within(0, 255) as u8,
                scalar_at(gm, l).round_within(0, 255) as u8,
                scalar_at(bm, l).round_within(0, 255) as u8,
                scalar_at(am, l).round_within(0, 255) as u8,
            ],
        };
        assert(p == built_pixel(xm@, ym@, rm@, gm@, bm@, am@, l));
        out.insert_with_annotation(e.0, p);
        proof {
            assert(out@ =~= Map::new(
                |l: Loc| img@.restrict(prefix_locs(img.order(), j + 1)).contains_key(l),
                |l: Loc| (img@[l].0, built_pixel(xm@, ym@, rm@, gm@, bm@, am@, l)),
            ));
        }
    }
    proof {
        img.lemma_prefix_all();
        assert(out@ =~= Map::new(
            |l: Loc| img@.contains_key(l),
            |l: Loc| (img@[l].0, built_pixel(xm@, ym@, rm@, gm@, bm@, am@, l)),
        ));
    }
    out
}

fn pointwise(op: BinaryOpType) -> (r: Pointwise)
    ensures
        r == pointwise_of(op),
{
    match op {
        BinaryOpType::Add => Pointwise::Add,
        BinaryOpType::Sub => Pointwise::Sub,
        BinaryOpType::Div => Pointwise::Div,
        BinaryOpType::Mul => Pointwise::Mul,
    }
}

proof fn lemma_scalar_all_err(args: Seq<ScalarExprNode>, k: int, img: Img)
    requires
        0 <= k <= args.len(),
        sem_scalar_all(args.subrange(0, k), img) is Err,
    ensures
        sem_scalar_all(args, img) == sem_scalar_all(args.subrange(0, k), img),
    decreases args.len() - k,
{
    if k < args.len() {
        let p = args.subrange(0, k + 1);
        assert(p.subrange(0, p.len() - 1) =~= args.subrange(0, k));
        lemma_scalar_all_err(args, k + 1, img);
    } else {
        assert(args.subrange(0, k) =~= args);
    }
}

proof fn lemma_pixel_all_err(args: Seq<PixelExprType>, k: int, img: Img)
    requires
        0 <= k <= args.len(),
        sem_pixel_all(args.subrange(0, k), img) is Err,
    ensures
        sem_pixel_all(args, img) == sem_pixel_all(args.subrange(0, k), img),
    decreases args.len() - k,
{
    if k < args.len() {
        let p = args.subrange(0, k + 1);
        assert(p.subrange(0, p.len() - 1) =~= args.subrange(0, k));
        lemma_pixel_all_err(args, k + 1, img);
    } else {
        assert(args.subrange(0, k) =~= args);
    }
}

/// A scalar expression evaluated against `img`.
pub fn eval_scalar(e: &ScalarExprNode, img: &BasicContext) -> (r: Result<AnnotatedScalarContext, EvalError>)
    requires
        img.wf(),
    ensures
        agrees(r, sem_scalar(*e, img@)),
    decreases e,
{
    match e {
        ScalarExprNode::ScalarFn(call) => eval_scalar_fn(call, img),
        ScalarExprNode::SubExpr(b) => eval_scalar(&**b, img),
        ScalarExprNode::Scalar(n) => eval_scalar_node(n, img),
        ScalarExprNode::BinaryOp(b) => eval_binary(&**b, img),
    }
}

/// Every argument evaluated against `img`, in order; the first failure ends it.
fn eval_scalar_args(args: &Vec<ScalarExprNode>, img: &BasicContext) -> (r: Result<Vec<AnnotatedScalarContext>, EvalError>)
    requires
        img.wf(),
    ensures
        match (r, sem_scalar_all(args@, img@)) {
            (Ok(v), Ok(s)) => (forall|i: int| 0 <= i < v@.len() ==> (#[trigger] v@[i]).wf())
                && v@.map_values(|c: AnnotatedScalarContext| c@) == s,
            (Err(a), Err(b)) => a == b,
            _ => false,
        },
    decreases args,
{
    let mut out: Vec<AnnotatedScalarContext> = Vec::new();
    let n = args.len();
    proof {
        assert(args@.subrange(0, 0) =~= Seq::<ScalarExprNode>::empty());
        assert(out@.map_values(|c: AnnotatedScalarContext| c@) =~= Seq::<Scalars>::empty());
    }
    for i in 0..n
        invariant
            img.wf(),
            n == args@.len(),
            forall|k: int| 0 <= k < out@.len() ==> (#[trigger] out@[k]).wf(),
            sem_scalar_all(args@.subrange(0, i as int), img@) == Ok::<Seq<Scalars>, EvalError>(out@.map_values(|c: AnnotatedScalarContext| c@)),
    {
        let ghost p = args@.subrange(0, i + 1);
        proof {
            assert(p.subrange(0, p.len() - 1) =~= args@.subrange(0, i as int));
            assert(p[p.len() - 1] == args@[i as int]);
        }
        match eval_scalar(&args[i], img) {
            Ok(c) => {
                let ghost prev = out@;
                out.push(c);
                proof {
                    assert(out@.map_values(|c: AnnotatedScalarContext| c@) =~= prev.map_values(|c: AnnotatedScalarContext| c@).push(c@));
                }
            },
            Err(e) => {
                proof {
                    lemma_scalar_all_err(args@, i + 1, img@);
                }
                return Err(e);
            },
        }
    }
    proof {
        assert(args@.subrange(0, n as int) =~= args@);
    }
    Ok(out)
}

fn eval_scalar_fn(call: &ScalarFnCall, img: &BasicContext) -> (r: Result<AnnotatedScalarContext, EvalError>)
    requires
        img.wf(),
    ensures
        agrees(r, sem_scalar_fn(*call, img@)),
    decreases call,
{
    match call.op {
        ScalarFnOp::Min => match eval_scalar_args(&call.args, img) {
            Ok(v) => ops::min(&v),
            Err(e) => Err(e),
        },
        ScalarFnOp::Max => match eval_scalar_args(&call.args, img) {
            Ok(v) => ops::max(&v),
            Err(e) => Err(e),
        },
        ScalarFnOp::Square => {
            if call.args.len() == 0 {
                return Err(EvalError::MissingArgument);
            }
            match eval_scalar(&call.args[0], img) {
                Ok(m) => Ok(ops::square(&m)),
                Err(e) => Err(e),
            }
        },
        ScalarFnOp::Sqrt => {
            if call.args.len() == 0 {
                return Err(EvalError::MissingArgument);
            }
            match eval_scalar(&call.args[0], img) {
                Ok(m) => Ok(ops::sqrt(&m)),
                Err(e) => Err(e),
            }
        },
    }
}

fn eval_scalar_node(n: &ScalarNode, img: &BasicContext) -> (r: Result<AnnotatedScalarContext, EvalError>)
    requires
        img.wf(),
    ensures
        agrees(r, sem_scalar_node(*n, img@)),
    decreases n,
{
    match n {
        ScalarNode::Decimal(v) => {
            let c = AnnotatedScalarContext::like(img, v);
            assert(c@ =~= crate::semantics::broadcast(img@, *v));
            Ok(c)
        },
        ScalarNode::Integer(i) => {
            let v = Num::of_int(*i);
            let c = AnnotatedScalarContext::like(img, &v);
            assert(c@ =~= crate::semantics::broadcast(img@, v));
            Ok(c)
        },
        ScalarNode::SelectorScalar(s) => match eval_selector(&s.selector_ctx, img) {
            Ok(sub) => match attrs::access_scalar_attr(&sub, &s.accessed_attr.key) {
                Ok(v) => {
                    let c = AnnotatedScalarContext::like(img, &v);
                    assert(c@ =~= crate::semantics::broadcast(img@, v));
                    Ok(c)
                },
                Err(e) => Err(e),
            },
            Err(e) => Err(e),
        },
        ScalarNode::PixelScalar(p, attr) => match eval_pixel(&**p, img) {
            Ok(pm) => attrs::access_scalar_annotated_ctx_attr(&pm, &attr.key),
            Err(e) => Err(e),
        },
    }
}

fn eval_binary(b: &BinaryScalarOpNode, img: &BasicContext) -> (r: Result<AnnotatedScalarContext, EvalError>)
    requires
        img.wf(),
    ensures
        agrees(r, sem_binary(*b, img@)),
    decreases b,
{
    let l = match eval_scalar(&b.lhs, img) {
        Ok(l) => l,
        Err(e) => {
            return Err(e);
        },
    };
    let r = match eval_scalar(&b.rhs, img) {
        Ok(r) => r,
        Err(e) => {
            return Err(e);
        },
    };
    ops::combine(pointwise(b.op), &l, &r)
}

fn eval_bound(b: &Option<ScalarExprNode>, img: &BasicContext) -> (r: Result<Option<u32>, EvalError>)
    requires
        img.wf(),
    ensures
        r == sem_bound(*b, img@),
    decreases b,
{
    match b {
        None => Ok(None),
        Some(e) => match eval_scalar(e, img) {
            Ok(m) => Ok(first_bound(&m)),
            Err(err) => Err(err),
        },
    }
}

fn eval_range(r: &SliceRangeNode, img: &BasicContext) -> (res: Result<(Option<u32>, Option<u32>), EvalError>)
    requires
        img.wf(),
    ensures
        res == sem_range(*r, img@),
    decreases r,
{
    let lo = match eval_bound(&r.lower_bound, img) {
        Ok(lo) => lo,
        Err(e) => {
            return Err(e);
        },
    };
    let hi = match eval_bound(&r.upper_bound, img) {
        Ok(hi) => hi,
        Err(e) => {
            return Err(e);
        },
    };
    Ok((lo, hi))
}

/// The part of `img` that a selector picks.
pub fn eval_selector(s: &SelectorCtxNode, img: &BasicContext) -> (r: Result<BasicContext, EvalError>)
    requires
        img.wf(),
    ensures
        agrees(r, sem_selector(*s, img@)),
    decreases s,
{
    let yb = match &s.y_slice_range {
        None => {
            let (_, h) = img.y_bounds();
            (Some(0), Some(h))
        },
        Some(r) => match eval_range(&**r, img) {
            Ok(b) => b,
            Err(e) => {
                return Err(e);
            },
        },
    };
    let xb = match &s.x_slice_range {
        None => {
            let (_, w) = img.x_bounds();
            (Some(0), Some(w))
        },
        Some(r) => match eval_range(&**r, img) {
            Ok(b) => b,
            Err(e) => {
                return Err(e);
            },
        },
    };
    Ok(img.subcontext(yb, xb))
}

/// A pixel expression evaluated against `img`.
pub fn eval_pixel(p: &PixelExprType, img: &BasicContext) -> (r: Result<AnnotatedPixelContext, EvalError>)
    requires
        img.wf(),
    ensures
        agrees(r, sem_pixel(*p, img@)),
    decreases p,
{
    match p {
        PixelExprType::Explicit(node) => eval_pixel_node(&**node, img),
        PixelExprType::CurrentPixel => Ok(current_pixels(img)),
        PixelExprType::FnCall(call) => eval_pixel_fn(call, img),
    }
}

fn eval_pixel_args(args: &Vec<PixelExprType>, img: &BasicContext) -> (r: Result<Vec<AnnotatedPixelContext>, EvalError>)
    requires
        img.wf(),
    ensures
        match (r, sem_pixel_all(args@, img@)) {
            (Ok(v), Ok(s)) => (forall|i: int| 0 <= i < v@.len() ==> (#[trigger] v@[i]).wf())
                && v@.map_values(|c: AnnotatedPixelContext| c@) == s,
            (Err(a), Err(b)) => a == b,
            _ => false,
        },
    decreases args,
{
    let mut out: Vec<AnnotatedPixelContext> = Vec::new();
    let n = args.len();
    proof {
        assert(args@.subrange(0, 0) =~= Seq::<PixelExprType>::empty());
        assert(out@.map_values(|c: AnnotatedPixelContext| c@) =~= Seq::<Pixels>::empty());
    }
    for i in 0..n
        invariant
            img.wf(),
            n == args@.len(),
            forall|k: int| 0 <= k < out@.len() ==> (#[trigger] out@[k]).wf(),
            sem_pixel_all(args@.subrange(0, i as int), img@) == Ok::<Seq<Pixels>, EvalError>(out@.map_values(|c: AnnotatedPixelContext| c@)),
    {
        let ghost p = args@.subrange(0, i + 1);
        proof {
            assert(p.subrange(0, p.len() - 1) =~= args@.subrange(0, i as int));
            assert(p[p.len() - 1] == args@[i as int]);
        }
        match eval_pixel(&args[i], img) {
            Ok(c) => {
                let ghost prev = out@;
                out.push(c);
                proof {
                    assert(out@.map_values(|c: AnnotatedPixelContext| c@) =~= prev.map_values(|c: AnnotatedPixelContext| c@).push(c@));
                }
            },
            Err(e) => {
                proof {
                    lemma_pixel_all_err(args@, i + 1, img@);
                }
                return Err(e);
            },
        }
    }
    proof {
        assert(args@.subrange(0, n as int) =~= args@);
    }
    Ok(out)
}

fn eval_pixel_fn(call: &PixelFnCall, img: &BasicContext) -> (r: Result<AnnotatedPixelContext, EvalError>)
    requires
        img.wf(),
    ensures
        agrees(r, sem_pixel_fn(*call, img@)),
    decreases call,
{
    match call.op {
        PixelFnOp::Center => {
            let c = ctx_ops::center(img);
            assert(c@ =~= crate::semantics::broadcast(img@, crate::context::center_of(img@)));
            Ok(c)
        },
        PixelFnOp::ColorAdd => match eval_pixel_args(&call.args, img) {
            Ok(v) => {
                let ghost s = v@.map_values(|c: AnnotatedPixelContext| c@);
                proof {
                    assert(forall|i: int| 0 <= i < s.len() ==> #[trigger] s[i] == v@[i]@);
                    if forall|i: int| 0 <= i < v@.len() ==> (#[trigger] v@[i])@.dom() == v@[0]@.dom() {
                        assert forall|i: int| 0 <= i < s.len() implies (#[trigger] s[i]).dom() == s[0].dom() by {
                            assert(v@[i]@.dom() == v@[0]@.dom());
                        }
                    }
                    if forall|i: int| 0 <= i < s.len() ==> (#[trigger] s[i]).dom() == s[0].dom() {
                        assert forall|i: int| 0 <= i < v@.len() implies (#[trigger] v@[i])@.dom() == v@[0]@.dom() by {
                            assert(s[i].dom() == s[0].dom());
                        }
                    }
                }
                ctx_ops::color_add(&v)
            },
            Err(e) => Err(e),
        },
        _ => {
            if call.args.len() == 0 {
                return Err(EvalError::MissingArgument);
            }
            let m = match eval_pixel(&call.args[0], img) {
                Ok(m) => m,
                Err(e) => {
                    return Err(e);
                },
            };
            match call.op {
                PixelFnOp::Neighbors(dy, dx) => Ok(ctx_ops::neighbors(&m, dy, dx)),
                PixelFnOp::ColorScale(f) => Ok(ctx_ops::color_scale(&m, f)),
                PixelFnOp::AlphaBlend(f) => Ok(ctx_ops::alpha_blend(&m, f)),
                _ => Ok(ctx_ops::color_norm(&m)),
            }
        },
    }
}

fn eval_pixel_node(n: &PixelNode, img: &BasicContext) -> (r: Result<AnnotatedPixelContext, EvalError>)
    requires
        img.wf(),
    ensures
        agrees(r, sem_pixel_node(*n, img@)),
    decreases n,
{
    let xm = match eval_scalar(&n.x_expr, img) {
        Ok(m) => m,
        Err(e) => {
            return Err(e);
        },
    };
    let ym = match eval_scalar(&n.y_expr, img) {
        Ok(m) => m,
        Err(e) => {
            return Err(e);
        },
    };
    let rm = match eval_scalar(&n.r_expr, img) {
        Ok(m) => m,
        Err(e) => {
            return Err(e);
        },
    };
    let gm = match eval_scalar(&n.g_expr, img) {
        Ok(m) => m,
        Err(e) => {
            return Err(e);
        },
    };
    let bm = match eval_scalar(&n.b_expr, img) {
        Ok(m) => m,
        Err(e) => {
            return Err(e);
        },
    };
    let am = match eval_scalar(&n.a_expr, img) {
        Ok(m) => m,
        Err(e) => {
            return Err(e);
        },
    };
    if !(xm.same_locations(img) && ym.same_locations(img) && rm.same_locations(img)
        && gm.same_locations(img) && bm.same_locations(img) && am.same_locations(img)) {
        return Err(EvalError::IncompatibleContexts);
    }
    Ok(build_pixels(img, &xm, &ym, &rm, &gm, &bm, &am))
}

/// An operator applied to `img`.
pub fn eval_operator(op: &OperatorNode, img: &BasicContext) -> (r: Result<BasicContext, EvalError>)
    requires
        img.wf(),
    ensures
        agrees(r, sem_operator(*op, img@)),
    decreases op,
{
    match op {
        OperatorNode::UnaryNegationOp => Ok(ops::negate(img)),
        OperatorNode::MatchExprOp(m) => eval_match(m, img),
    }
}

fn eval_partition(m: &MatchExprOpNode, img: &BasicContext) -> (r: Result<(BasicContext, BasicContext), EvalError>)
    requires
        img.wf(),
    ensures
        match (r, sem_partition(*m, img@)) {
            (Ok(p), Ok(q)) => p.0.wf() && p.1.wf() && p.0@ == q.0 && p.1@ == q.1,
            (Err(a), Err(b)) => a == b,
            _ => false,
        },
    decreases m,
{
    match &m.match_comparator_node {
        None => Ok((img.duplicate(), BasicContext::empty())),
        Some(cmp) => match (&m.match_value, &cmp.cmp_val) {
            (MatchComparisonValue::Scalar(l), MatchComparisonValue::Scalar(r)) => {
                let lm = match eval_scalar(l, img) {
                    Ok(x) => x,
                    Err(e) => {
                        return Err(e);
                    },
                };
                let rm = match eval_scalar(r, img) {
                    Ok(x) => x,
                    Err(e) => {
                        return Err(e);
                    },
                };
                if !covers(&lm, &rm) {
                    return Err(EvalError::IncompatibleContexts);
                }
                Ok(partition_num(img, &lm, &rm, cmp.op_type))
            },
            (MatchComparisonValue::Pixel(l), MatchComparisonValue::Pixel(r)) => {
                let lm = match eval_pixel(l, img) {
                    Ok(x) => x,
                    Err(e) => {
                        return Err(e);
                    },
                };
                let rm = match eval_pixel(r, img) {
                    Ok(x) => x,
                    Err(e) => {
                        return Err(e);
                    },
                };
                if !covers(&lm, &rm) {
                    return Err(EvalError::IncompatibleContexts);
                }
                Ok(partition_pixel(img, &lm, &rm, cmp.op_type))
            },
            _ => Err(EvalError::TypeMismatch),
        },
    }
}

/// A match expression applied to `img`: the matched part through the matched branch, the
/// rest through the else branch if there is one, the two merged.
pub fn eval_match(m: &MatchExprOpNode, img: &BasicContext) -> (r: Result<BasicContext, EvalError>)
    requires
        img.wf(),
    ensures
        agrees(r, sem_match(*m, img@)),
    decreases m,
{
    let (matched, rest) = match eval_partition(m, img) {
        Ok(p) => p,
        Err(e) => {
            return Err(e);
        },
    };
    let mut out = match eval_return(&*m.match_return_value_node, &matched) {
        Ok(o) => o,
        Err(e) => {
            return Err(e);
        },
    };
    match &m.else_return_value_node {
        None => Ok(out),
        Some(eb) => {
            let other = match eval_return(&**eb, &rest) {
                Ok(o) => o,
                Err(e) => {
                    return Err(e);
                },
            };
            out.merge_from(&other);
            Ok(out)
        },
    }
}

fn eval_return(rv: &MatchReturnValue, img: &BasicContext) -> (r: Result<BasicContext, EvalError>)
    requires
        img.wf(),
    ensures
        agrees(r, sem_return(*rv, img@)),
    decreases rv,
{
    match rv {
        MatchReturnValue::Pixel(p) => match eval_pixel(p, img) {
            Ok(pm) => Ok(gather_values(&pm)),
            Err(e) => Err(e),
        },
        MatchReturnValue::Operator(op) => eval_operator(op, img),
    }
}

proof fn lemma_ops_err(ops: Seq<OperatorNode>, k: int, cur: Img)
    requires
        0 <= k <= ops.len(),
        sem_ops(ops.subrange(0, k), cur) is Err,
    ensures
        sem_ops(ops, cur) == sem_ops(ops.subrange(0, k), cur),
    decreases ops.len() - k,
{
    if k < ops.len() {
        assert(ops.subrange(0, k + 1).drop_last() =~= ops.subrange(0, k));
        lemma_ops_err(ops, k + 1, cur);
    } else {
        assert(ops.subrange(0, k) =~= ops);
    }
}

proof fn lemma_exprs_err(es: Seq<ExprNode>, k: int, img: Img)
    requires
        0 <= k <= es.len(),
        sem_exprs(es.subrange(0, k), img) is Err,
    ensures
        sem_exprs(es, img) == sem_exprs(es.subrange(0, k), img),
    decreases es.len() - k,
{
    if k < es.len() {
        assert(es.subrange(0, k + 1).drop_last() =~= es.subrange(0, k));
        lemma_exprs_err(es, k + 1, img);
    } else {
        assert(es.subrange(0, k) =~= es);
    }
}

/// The operators applied in order, each to the output of the one before.
pub fn eval_ops(ops: &Vec<OperatorNode>, start: BasicContext) -> (r: Result<BasicContext, EvalError>)
    requires
        start.wf(),
    ensures
        agrees(r, sem_ops(ops@, start@)),
{
    let ghost s0 = start@;
    let mut cur = start;
    let n = ops.len();
    let mut i: usize = 0;
    proof {
        assert(ops@.subrange(0, 0).len() == 0);
    }
    while i < n
        invariant
            n == ops@.len(),
            i <= n,
            s0 == start@,
            cur.wf(),
            sem_ops(ops@.subrange(0, i as int), s0) == Ok::<Img, EvalError>(cur@),
        decreases n - i,
    {
        proof {
            assert(ops@.subrange(0, i + 1).drop_last() =~= ops@.subrange(0, i as int));
            assert(ops@.subrange(0, i + 1).last() == ops@[i as int]);
        }
        let next = eval_operator(&ops[i], &cur);
        match next {
            Ok(c) => {
                cur = c;
            },
            Err(e) => {
                proof {
                    lemma_ops_err(ops@, i + 1, s0);
                }
                return Err(e);
            },
        }
        i = i + 1;
    }
    proof {
        assert(ops@.subrange(0, n as int) =~= ops@);
    }
    Ok(cur)
}

/// An expression evaluated against `img`: the selected part, then the operators.
pub fn eval_expr(e: &ExprNode, img: &BasicContext) -> (r: Result<BasicContext, EvalError>)
    requires
        img.wf(),
    ensures
        agrees(r, sem_expr(*e, img@)),
{
    let start = match &e.selector_ctx {
        None => img.duplicate(),
        Some(s) => match eval_selector(s, img) {
            Ok(c) => c,
            Err(err) => {
                return Err(err);
            },
        },
    };
    eval_ops(&e.op_nodes, start)
}

/// A whole script run on `img`: every expression against the same image, their outputs
/// merged in order, a later one winning at a location.
pub fn eval_root(root: &IqAstRootNode, img: &BasicContext) -> (r: Result<BasicContext, EvalError>)
    requires
        img.wf(),
    ensures
        agrees(r, sem_root(*root, img@)),
{
    let mut outs: Vec<BasicContext> = Vec::new();
    let n = root.exprs.len();
    proof {
        assert(root.exprs@.subrange(0, 0).len() == 0);
        assert(outs@.map_values(|c: BasicContext| c@) =~= Seq::<Img>::empty());
    }
    for i in 0..n
        invariant
            img.wf(),
            n == root.exprs@.len(),
            forall|k: int| 0 <= k < outs@.len() ==> (#[trigger] outs@[k]).wf(),
            sem_exprs(root.exprs@.subrange(0, i as int), img@) == Ok::<Seq<Img>, EvalError>(outs@.map_values(|c: BasicContext| c@)),
    {
        proof {
            assert(root.exprs@.subrange(0, i + 1).drop_last() =~= root.exprs@.subrange(0, i as int));
            assert(root.exprs@.subrange(0, i + 1).last() == root.exprs@[i as int]);
        }
        match eval_expr(&root.exprs[i], img) {
            Ok(c) => {
                let ghost prev = outs@;
                outs.push(c);
                proof {
                    assert(outs@.map_values(|c: BasicContext| c@) =~= prev.map_values(|c: BasicContext| c@).push(c@));
                }
            },
            Err(e) => {
                proof {
                    lemma_exprs_err(root.exprs@, i + 1, img@);
                }
                return Err(e);
            },
        }
    }
    proof {
        assert(root.exprs@.subrange(0, n as int) =~= root.exprs@);
    }
    Ok(BasicContext::from_contexts(outs))
}

/// Runs a parsed script on an image.
pub fn execute(input_ctx: BasicContext, root: &IqAstRootNode) -> (r: Result<BasicContext, EvalError>)
    requires
        input_ctx.wf(),
    ensures
        agrees(r, sem_root(*root, input_ctx@)),
{
    eval_root(root, &input_ctx)
}

/// A syntax node that evaluates against an image.
pub trait Evalulate<T> {
    /// `r` is what the node gives on the image `img`.
    spec fn evaluates_to(&self, img: Img, r: Result<T, EvalError>) -> bool;

    fn eval(&self, image_ctx: &BasicContext) -> (r: Result<T, EvalError>)
        requires
            image_ctx.wf(),
        ensures
            self.evaluates_to(image_ctx@, r),
    ;
}

impl Evalulate<BasicContext> for IqAstRootNode {
    open spec fn evaluates_to(&self, img: Img, r: Result<BasicContext, EvalError>) -> bool {
        agrees(r, sem_root(*self, img))
    }

    fn eval(&self, image_ctx: &BasicContext) -> (r: Result<BasicContext, EvalError>) {
        eval_root(self, image_ctx)
    }
}

impl Evalulate<BasicContext> for ExprNode {
    open spec fn evaluates_to(&self, img: Img, r: Result<BasicContext, EvalError>) -> bool {
        agrees(r, sem_expr(*self, img))
    }

    fn eval(&self, image_ctx: &BasicContext) -> (r: Result<BasicContext, EvalError>) {
        eval_expr(self, image_ctx)
    }
}

impl Evalulate<BasicContext> for SelectorCtxNode {
    open spec fn evaluates_to(&self, img: Img, r: Result<BasicContext, EvalError>) -> bool {
        agrees(r, sem_selector(*self, img))
    }

    fn eval(&self, image_ctx: &BasicContext) -> (r: Result<BasicContext, EvalError>) {
        eval_selector(self, image_ctx)
    }
}

impl Evalulate<(Option<u32>, Option<u32>)> for SliceRangeNode {
    open spec fn evaluates_to(&self, img: Img, r: Result<(Option<u32>, Option<u32>), EvalError>) -> bool {
        r == sem_range(*self, img)
    }

    fn eval(&self, image_ctx: &BasicContext) -> (r: Result<(Option<u32>, Option<u32>), EvalError>) {
        eval_range(self, image_ctx)
    }
}

impl Evalulate<AnnotatedScalarContext> for ScalarExprNode {
    open spec fn evaluates_to(&self, img: Img, r: Result<AnnotatedScalarContext, EvalError>) -> bool {
        agrees(r, sem_scalar(*self, img))
    }

    fn eval(&self, image_ctx: &BasicContext) -> (r: Result<AnnotatedScalarContext, EvalError>) {
        eval_scalar(self, image_ctx)
    }
}

impl Evalulate<AnnotatedPixelContext> for PixelExprType {
    open spec fn evaluates_to(&self, img: Img, r: Result<AnnotatedPixelContext, EvalError>) -> bool {
        agrees(r, sem_pixel(*self, img))
    }

    fn eval(&self, image_ctx: &BasicContext) -> (r: Result<AnnotatedPixelContext, EvalError>) {
        eval_pixel(self, image_ctx)
    }
}

impl Evalulate<BasicContext> for OperatorNode {
    open spec fn evaluates_to(&self, img: Img, r: Result<BasicContext, EvalError>) -> bool {
        agrees(r, sem_operator(*self, img))
    }

    fn eval(&self, image_ctx: &BasicContext) -> (r: Result<BasicContext, EvalError>) {
        eval_operator(self, image_ctx)
    }
}

impl Evalulate<BasicContext> for MatchExprOpNode {
    open spec fn evaluates_to(&self, img: Img, r: Result<BasicContext, EvalError>) -> bool {
        agrees(r, sem_match(*self, img))
    }

    fn eval(&self, image_ctx: &BasicContext) -> (r: Result<BasicContext, EvalError>) {
        eval_match(self, image_ctx)
    }
}

} // verus!
