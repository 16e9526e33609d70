//! Operations on pixel contexts: the built-in pixel functions of the language.
use crate::context::{
    AnnotatedPixelContext, BasicContext, IqPixel, Loc, center_of, prefix_locs,
};
use crate::error::EvalError;
use crate::num::Num;
use vstd::prelude::*;

verus! {

/// A change made to the pixel value at every location.
#[derive(Clone, Copy, Debug)]
pub enum PixelMap {
    /// Red, green and blue multiplied by the factor.
    Scale(Num),
    /// Alpha multiplied by the factor, rounded toward zero.
    Blend(Num),
    /// The value found at the offset `(dy, dx)` from the value's own location.
    Shift(i64, i64),
    /// Red, green and blue stretched: each channel less its low, over its range, times 255.
    Stretch([u8; 3], [u32; 3]),
}

/// A channel multiplied by `f`, rounded, and held within `[0, 255]`.
pub open spec fn scaled(v: u8, f: Num) -> u8 {
    Num::of_int_spec(v as int).times_spec(f).to_bounded(0, 255) as u8
}

/// A channel multiplied by `f`, rounded toward zero, and held within `[0, 255]`.
pub open spec fn blended(v: u8, f: Num) -> u8 {
    Num::of_int_spec(v as int).times_spec(f).to_bounded_toward_zero(0, 255) as u8
}

/// A coordinate moved by `d`, wrapping around the range of `u32`.
pub open spec fn shifted(v: u32, d: i64) -> u32 {
    ((v as int + d as int) % 0x1_0000_0000) as u32
}

/// A channel taken from `[lo, lo + range]` onto `[0, 255]`, rounding down.
pub open spec fn stretched(v: u8, lo: u8, range: u32) -> u8 {
    if v < lo || range == 0 {
        0
    } else if (v - lo) * 255 / (range as int) > 255 {
        255
    } else {
        ((v - lo) * 255 / (range as int)) as u8
    }
}

/// The location that `Shift(dy, dx)` reads for the value `a`.
pub open spec fn offset_loc(a: IqPixel, dy: i64, dx: i64) -> Loc {
    (shifted(a.y, dy), shifted(a.x, dx))
}

/// The value that `op` makes of the value `a` held by `key` in `m`.
pub open spec fn after(op: PixelMap, m: Map<Loc, (IqPixel, IqPixel)>, key: IqPixel, a: IqPixel) -> IqPixel {
    match op {
        PixelMap::Scale(f) => IqPixel {
            y: key.y,
            x: key.x,
            c: [scaled(a.c[0], f), scaled(a.c[1], f), scaled(a.c[2], f), a.c[3]],
        },
        PixelMap::Blend(f) => IqPixel { y: key.y, x: key.x, c: [a.c[0], a.c[1], a.c[2], blended(a.c[3], f)] },
        PixelMap::Shift(dy, dx) => {
            let l = offset_loc(a, dy, dx);
            IqPixel {
                y: l.0,
                x: l.1,
                c: if m.contains_key(l) {
                    m[l].1.c
                } else {
                    [0u8, 0u8, 0u8, 0u8]
                },
            }
        },
        PixelMap::Stretch(lo, range) => IqPixel {
            y: key.y,
            x: key.x,
            c: [
                stretched(a.c[0], lo[0], range[0]),
                stretched(a.c[1], lo[1], range[1]),
                stretched(a.c[2], lo[2], range[2]),
                a.c[3],
            ],
        },
    }
}

/// `op` applied to the value at every location.
pub open spec fn map_after(op: PixelMap, m: Map<Loc, (IqPixel, IqPixel)>) -> Map<Loc, (IqPixel, IqPixel)> {
    m.map_values(|e: (IqPixel, IqPixel)| (e.0, after(op, m, e.0, e.1)))
}

fn scale_channel(v: u8, f: Num) -> (r: u8)
    ensures
        r == scaled(v, f),
{
    Num::of_int(v as i64).times(f).round_within(0, 255) as u8
}

fn blend_channel(v: u8, f: Num) -> (r: u8)
    ensures
        r == blended(v, f),
{
    Num::of_int(v as i64).times(f).truncate_within(0, 255) as u8
}

fn shift_coord(v: u32, d: i64) -> (r: u32)
    ensures
        r == shifted(v, d),
{
    let t: u128 = (v as i128 + d as i128 + 0x1_0000_0000_0000_0000i128) as u128;
    let u = t % 0x1_0000_0000;
    proof {
        vstd::arithmetic::div_mod::lemma_mod_multiples_vanish(0x1_0000_0000, v as int + d as int, 0x1_0000_0000);
    }
    u as u32
}

fn stretch_channel(v: u8, lo: u8, range: u32) -> (r: u8)
    ensures
        r == stretched(v, lo, range),
{
    if v < lo || range == 0 {
        0
    } else {
        let q = ((v - lo) as u64) * 255 / (range as u64);
        if q > 255 {
            255
        } else {
            q as u8
        }
    }
}

fn apply_map(op: PixelMap, arg: &AnnotatedPixelContext, key: IqPixel, a: IqPixel) -> (r: IqPixel)
    requires
        arg.wf(),
    ensures
        r == after(op, arg@, key, a),
{
    match op {
        PixelMap::Scale(f) => IqPixel {
            y: key.y,
            x: key.x,
            c: [scale_channel(a.c[0], f), scale_channel(a.c[1], f), scale_channel(a.c[2], f), a.c[3]],
        },
        PixelMap::Blend(f) => IqPixel {
            y: key.y,
            x: key.x,
            c: [a.c[0], a.c[1], a.c[2], blend_channel(a.c[3], f)],
        },
        PixelMap::Shift(dy, dx) => {
            let ny = shift_coord(a.y, dy);
            let nx = shift_coord(a.x, dx);
            let c = match arg.get_annotation_at_loc((ny, nx)) {
                Some(found) => found.c,
                None => [0, 0, 0, 0],
            };
            IqPixel { y: ny, x: nx, c }
        },
        PixelMap::Stretch(lo, range) => IqPixel {
            y: key.y,
            x: key.x,
            c: [
                stretch_channel(a.c[0], lo[0], range[0]),
                stretch_channel(a.c[1], lo[1], range[1]),
                stretch_channel(a.c[2], lo[2], range[2]),
                a.c[3],
            ],
        },
    }
}

/// `op` applied to the value at every location; the locations stay as they are.
pub fn transform(op: PixelMap, arg: &AnnotatedPixelContext) -> (r: AnnotatedPixelContext)
    requires
        arg.wf(),
    ensures
        r.wf(),
        r@ == map_after(op, arg@),
{
    let mut out = AnnotatedPixelContext::empty();
    let n = arg.count();
    proof {
        arg.lemma_prefix_all();
        arg.lemma_wf();
    }
    for j in 0..n
        invariant
            arg.wf(),
            out.wf(),
            n == arg.order().len(),
            out@ == arg@.restrict(prefix_locs(arg.order(), j as int)).map_values(
                |e: (IqPixel, IqPixel)| (e.0, after(op, arg@, e.0, e.1)),
            ),
    {
        let e = arg.entry(j);
        proof {
            arg.lemma_prefix(j as int);
            arg.lemma_wf();
        }
        let v = apply_map(op, arg, e.0, e.1);
        out.insert_with_annotation(e.0, v);
        proof {
            assert(out@ =~= arg@.restrict(prefix_locs(arg.order(), j + 1)).map_values(
                |e: (IqPixel, IqPixel)| (e.0, after(op, arg@, e.0, e.1)),
            ));
        }
    }
    proof {
        arg.lemma_prefix_all();
        assert(arg@.restrict(arg@.dom()) =~= arg@);
    }
    out
}

/// Every location annotated with the pixel at the middle of the image's bounding box.
pub fn center(ctx: &BasicContext) -> (r: AnnotatedPixelContext)
    requires
        ctx.wf(),
    ensures
        r.wf(),
        r@ == ctx@.map_values(|e: (IqPixel, ())| (e.0, center_of(ctx@))),
{
    let c = ctx.center();
    AnnotatedPixelContext::like(ctx, &c)
}

/// At every location, the value found at the offset `(dy, dx)` from the value's own
/// location, or transparent black there where nothing is found.
pub fn neighbors(arg: &AnnotatedPixelContext, dy: i64, dx: i64) -> (r: AnnotatedPixelContext)
    requires
        arg.wf(),
    ensures
        r.wf(),
        r@ == map_after(PixelMap::Shift(dy, dx), arg@),
{
    transform(PixelMap::Shift(dy, dx), arg)
}

/// Red, green and blue of every value multiplied by `scale_factor`.
pub fn color_scale(arg: &AnnotatedPixelContext, scale_factor: Num) -> (r: AnnotatedPixelContext)
    requires
        arg.wf(),
    ensures
        r.wf(),
        r@ == map_after(PixelMap::Scale(scale_factor), arg@),
{
    transform(PixelMap::Scale(scale_factor), arg)
}

/// Alpha of every value multiplied by `blend`, rounded toward zero.
pub fn alpha_blend(arg: &AnnotatedPixelContext, blend: Num) -> (r: AnnotatedPixelContext)
    requires
        arg.wf(),
    ensures
        r.wf(),
        r@ == map_after(PixelMap::Blend(blend), arg@),
{
    transform(PixelMap::Blend(blend), arg)
}

/// `v` is the lowest value of channel `ch` in `m`.
pub open spec fn is_low(m: Map<Loc, (IqPixel, IqPixel)>, ch: int, v: u8) -> bool {
    &&& exists|l: Loc| m.contains_key(l) && #[trigger] m[l].1.c[ch] == v
    &&& forall|l: Loc| m.contains_key(l) ==> v <= #[trigger] m[l].1.c[ch]
}

/// `v` is the highest value of channel `ch` in `m`.
pub open spec fn is_high(m: Map<Loc, (IqPixel, IqPixel)>, ch: int, v: u8) -> bool {
    &&& exists|l: Loc| m.contains_key(l) && #[trigger] m[l].1.c[ch] == v
    &&& forall|l: Loc| m.contains_key(l) ==> #[trigger] m[l].1.c[ch] <= v
}

pub open spec fn low(m: Map<Loc, (IqPixel, IqPixel)>, ch: int) -> u8 {
    choose|v: u8| is_low(m, ch, v)
}

pub open spec fn high(m: Map<Loc, (IqPixel, IqPixel)>, ch: int) -> u8 {
    choose|v: u8| is_high(m, ch, v)
}

/// The spread of channel `ch`, or 1 where every value is the same.
pub open spec fn spread(m: Map<Loc, (IqPixel, IqPixel)>, ch: int) -> u32 {
    if high(m, ch) == low(m, ch) {
        1
    } else {
        (high(m, ch) - low(m, ch)) as u32
    }
}

/// Each of red, green and blue stretched from its observed range onto `[0, 255]`.
pub open spec fn norm_map(m: Map<Loc, (IqPixel, IqPixel)>) -> Map<Loc, (IqPixel, IqPixel)> {
    map_after(
        PixelMap::Stretch([low(m, 0), low(m, 1), low(m, 2)], [spread(m, 0), spread(m, 1), spread(m, 2)]),
        m,
    )
}

proof fn lemma_low_high_unique(m: Map<Loc, (IqPixel, IqPixel)>, ch: int, lo: u8, hi: u8)
    requires
        is_low(m, ch, lo),
        is_high(m, ch, hi),
    ensures
        low(m, ch) == lo,
        high(m, ch) == hi,
{
    let a = low(m, ch);
    let b = high(m, ch);
    let la = choose|l: Loc| m.contains_key(l) && #[trigger] m[l].1.c[ch] == a;
    let l0 = choose|l: Loc| m.contains_key(l) && #[trigger] m[l].1.c[ch] == lo;
    let lb = choose|l: Loc| m.contains_key(l) && #[trigger] m[l].1.c[ch] == b;
    let l1 = choose|l: Loc| m.contains_key(l) && #[trigger] m[l].1.c[ch] == hi;
}

/// The lowest and highest value of channel `ch`.
fn channel_bounds(arg: &AnnotatedPixelContext, ch: usize) -> (r: (u8, u8))
    requires
        arg.wf(),
        arg@.len() > 0,
        ch < 4,
    ensures
        is_low(arg@, ch as int, r.0),
        is_high(arg@, ch as int, r.1),
{
    proof {
        arg.lemma_wf();
    }
    let n = arg.count();
    let first = arg.entry(0);
    let mut lo = first.1.c[ch];
    let mut hi = first.1.c[ch];
    for j in 1..n
        invariant
            arg.wf(),
            n == arg.order().len(),
            n > 0,
            ch < 4,
            exists|k: int| 0 <= k < j && #[trigger] arg.order()[k].1.c[ch as int] == lo,
            exists|k: int| 0 <= k < j && #[trigger] arg.order()[k].1.c[ch as int] == hi,
            forall|k: int| 0 <= k < j ==> lo <= #[trigger] arg.order()[k].1.c[ch as int] <= hi,
    {
        let e = arg.entry(j);
        let v = e.1.c[ch];
        if v < lo {
            lo = v;
        }
        if v > hi {
            hi = v;
        }
        assert(arg.order()[j as int].1.c[ch as int] == v);
    }
    proof {
        arg.lemma_wf();
        let k0 = choose|k: int| 0 <= k < n && #[trigger] arg.order()[k].1.c[ch as int] == lo;
        let k1 = choose|k: int| 0 <= k < n && #[trigger] arg.order()[k].1.c[ch as int] == hi;
        assert(arg@.contains_key(arg.order()[k0].0.loc()));
        assert(arg@[arg.order()[k0].0.loc()].1.c[ch as int] == lo);
        assert(arg@.contains_key(arg.order()[k1].0.loc()));
        assert(arg@[arg.order()[k1].0.loc()].1.c[ch as int] == hi);
        assert forall|l: Loc| arg@.contains_key(l) implies lo <= #[trigger] arg@[l].1.c[ch as int] <= hi by {
            let k = choose|k: int| 0 <= k < arg.order().len() && #[trigger] arg.order()[k].0.loc() == l;
            assert(arg@[l] == arg.order()[k]);
        }
    }
    (lo, hi)
}

/// Each of red, green and blue stretched from its observed range onto `[0, 255]`; a
/// channel whose values are all the same is divided by 1 rather than by 0.
pub fn color_norm(arg: &AnnotatedPixelContext) -> (r: AnnotatedPixelContext)
    requires
        arg.wf(),
    ensures
        r.wf(),
        r@ == norm_map(arg@),
{
    if arg.count() == 0 {
        let r = AnnotatedPixelContext::empty();
        proof {
            arg.lemma_wf();
            arg@.dom().lemma_len0_is_empty();
            assert(norm_map(arg@).dom() =~= Set::<Loc>::empty());
        }
        assert(r@ =~= norm_map(arg@));
        return r;
    }
    let (lr, hr) = channel_bounds(arg, 0);
    let (lg, hg) = channel_bounds(arg, 1);
    let (lb, hb) = channel_bounds(arg, 2);
    proof {
        lemma_low_high_unique(arg@, 0, lr, hr);
        lemma_low_high_unique(arg@, 1, lg, hg);
        lemma_low_high_unique(arg@, 2, lb, hb);
    }
    let rr: u32 = if hr == lr { 1 } else { (hr - lr) as u32 };
    let rg: u32 = if hg == lg { 1 } else { (hg - lg) as u32 };
    let rb: u32 = if hb == lb { 1 } else { (hb - lb) as u32 };
    transform(PixelMap::Stretch([lr, lg, lb], [rr, rg, rb]), arg)
}

/// Where a channel holds one value only, every pixel gets 0 there, and no division by
/// zero occurs.
pub proof fn lemma_norm_flat_channel(m: Map<Loc, (IqPixel, IqPixel)>, ch: int, v: u8)
    requires
        0 <= ch < 3,
        m.dom().len() > 0,
        m.dom().finite(),
        forall|l: Loc| m.contains_key(l) ==> #[trigger] m[l].1.c[ch] == v,
    ensures
        spread(m, ch) == 1,
        forall|l: Loc| m.contains_key(l) ==> #[trigger] norm_map(m)[l].1.c[ch] == 0,
        forall|l: Loc| m.contains_key(l) ==> #[trigger] norm_map(m)[l].1.c[3] == m[l].1.c[3],
        norm_map(m).dom() == m.dom(),
{
    let l0 = m.dom().choose();
    assert(m.contains_key(l0));
    assert(m[l0].1.c[ch] == v);
    lemma_low_high_unique(m, ch, v, v);
    assert(norm_map(m).dom() =~= m.dom());
}

/// The red, green and blue of the values of `s` at `l`, summed.
pub open spec fn channel_sum(s: Seq<Map<Loc, (IqPixel, IqPixel)>>, l: Loc, ch: int) -> int
    decreases s.len(),
{
    if s.len() == 0 {
        0
    } else {
        channel_sum(s.drop_last(), l, ch) + s.last()[l].1.c[ch]
    }
}

/// A channel sum held within `[0, 255]`.
pub open spec fn capped(v: int) -> u8 {
    if v > 255 {
        255
    } else {
        v as u8
    }
}

/// At every location of the first context, red, green and blue summed over all the
/// contexts, and alpha that of the first context's pixel.
pub open spec fn add_map(s: Seq<Map<Loc, (IqPixel, IqPixel)>>) -> Map<Loc, (IqPixel, IqPixel)> {
    if s.len() == 0 {
        Map::empty()
    } else {
        s[0].map_values(
            |e: (IqPixel, IqPixel)|
                (
                    e.0,
                    IqPixel {
                        y: e.0.y,
                        x: e.0.x,
                        c: [
                            capped(channel_sum(s, e.0.loc(), 0)),
                            capped(channel_sum(s, e.0.loc(), 1)),
                            capped(channel_sum(s, e.0.loc(), 2)),
                            e.0.c[3],
                        ],
                    },
                ),
        )
    }
}

pub proof fn lemma_channel_sum_nonneg(s: Seq<Map<Loc, (IqPixel, IqPixel)>>, l: Loc, ch: int)
    ensures
        channel_sum(s, l, ch) >= 0,
    decreases s.len(),
{
    if s.len() > 0 {
        lemma_channel_sum_nonneg(s.drop_last(), l, ch);
    }
}

/// Red, green and blue summed over every context at each location, each channel on its
/// own; an error unless every context covers the locations of the first.
pub fn color_add(args: &Vec<AnnotatedPixelContext>) -> (r: Result<AnnotatedPixelContext, EvalError>)
    requires
        forall|i: int| 0 <= i < args@.len() ==> (#[trigger] args@[i]).wf(),
    ensures
        r is Ok <==> forall|i: int| 0 <= i < args@.len() ==> (#[trigger] args@[i])@.dom() == args@[0]@.dom(),
        r matches Ok(c) ==> c.wf() && c@ == add_map(args@.map_values(|c: AnnotatedPixelContext| c@)),
        r matches Err(e) ==> e is IncompatibleContexts,
{
    let ghost views = args@.map_values(|c: AnnotatedPixelContext| c@);
    let n = args.len();
    if n == 0 {
        let r = AnnotatedPixelContext::empty();
        assert(r@ =~= add_map(views));
        return Ok(r);
    }
    for i in 0..n
        invariant
            n == args@.len(),
            n > 0,
            forall|i: int| 0 <= i < args@.len() ==> (#[trigger] args@[i]).wf(),
            forall|k: int| 0 <= k < i ==> (#[trigger] args@[k])@.dom() == args@[0]@.dom(),
    {
        if !args[i].same_locations(&args[0]) {
            return Err(EvalError::IncompatibleContexts);
        }
    }
    let first = &args[0];
    let mut out = AnnotatedPixelContext::empty();
    let m = first.count();
    proof {
        first.lemma_prefix_all();
        first.lemma_wf();
    }
    for j in 0..m
        invariant
            n == args@.len(),
            n > 0,
            views == args@.map_values(|c: AnnotatedPixelContext| c@),
            forall|i: int| 0 <= i < args@.len() ==> (#[trigger] args@[i]).wf(),
            forall|k: int| 0 <= k < n ==> (#[trigger] args@[k])@.dom() == args@[0]@.dom(),
            first == &args@[0],
            out.wf(),
            m == first.order().len(),
            out@ == add_map(views).restrict(prefix_locs(first.order(), j as int)),
    {
        let e = first.entry(j);
        let loc = (e.0.y, e.0.x);
        proof {
            first.lemma_prefix(j as int);
            first.lemma_wf();
        }
        let mut sr: u64 = 0;
        let mut sg: u64 = 0;
        let mut sb: u64 = 0;
        for i in 0..n
            invariant
                n == args@.len(),
                views == args@.map_values(|c: AnnotatedPixelContext| c@),
                forall|i: int| 0 <= i < args@.len() ==> (#[trigger] args@[i]).wf(),
                forall|k: int| 0 <= k < n ==> (#[trigger] args@[k])@.dom() == args@[0]@.dom(),
                args@[0]@.contains_key(loc),
                sr == capped(channel_sum(views.subrange(0, i as int), loc, 0)),
                sg == capped(channel_sum(views.subrange(0, i as int), loc, 1)),
                sb == capped(channel_sum(views.subrange(0, i as int), loc, 2)),
        {
            proof {
                assert(views.subrange(0, i + 1).drop_last() =~= views.subrange(0, i as int));
                lemma_channel_sum_nonneg(views.subrange(0, i as int), loc, 0);
                lemma_channel_sum_nonneg(views.subrange(0, i as int), loc, 1);
                lemma_channel_sum_nonneg(views.subrange(0, i as int), loc, 2);
                assert(args@[i as int]@.dom() == args@[0]@.dom());
            }
            match args[i].get_annotation_at_loc(loc) {
                Some(v) => {
                    sr = if sr + v.c[0] as u64 > 255 { 255 } else { sr + v.c[0] as u64 };
                    sg = if sg + v.c[1] as u64 > 255 { 255 } else { sg + v.c[1] as u64 };
                    sb = if sb + v.c[2] as u64 > 255 { 255 } else { sb + v.c[2] as u64 };
                },
                None => {
                    proof {
                        assert(false);
                    }
                },
            }
        }
        proof {
            assert(views.subrange(0, n as int) =~= views);
        }
        let v = IqPixel { y: e.0.y, x: e.0.x, c: [sr as u8, sg as u8, sb as u8, e.0.c[3]] };
        out.insert_with_annotation(e.0, v);
        proof {
            assert(out@ =~= add_map(views).restrict(prefix_locs(first.order(), j + 1)));
        }
    }
    proof {
        first.lemma_prefix_all();
        assert(out@ =~= add_map(views));
    }
    Ok(out)
}

} // verus!
