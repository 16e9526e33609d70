//! The spatial container that every evaluation reads and writes.
use std::collections::HashMap;
use vstd::prelude::*;

verus! {

broadcast use {vstd::std_specs::hash::group_hash_axioms, vstd::array::group_array_axioms};

/// A location is `(y, x)`.
pub type Loc = (u32, u32);

/// One pixel: its location and four colour channels `r, g, b, a`.
#[derive(Clone, Copy, Debug)]
pub struct IqPixel {
    pub x: u32,
    pub y: u32,
    pub c: [u8; 4],
}

impl IqPixel {
    pub open spec fn loc(self) -> Loc {
        (self.y, self.x)
    }

    /// The pixel with the same location and every channel complemented.
    pub open spec fn negated(self) -> IqPixel {
        IqPixel {
            x: self.x,
            y: self.y,
            c: [
                (255 - self.c[0]) as u8,
                (255 - self.c[1]) as u8,
                (255 - self.c[2]) as u8,
                (255 - self.c[3]) as u8,
            ],
        }
    }

    /// The pixel with the same location and every channel complemented.
    pub fn negate(&self) -> (r: Self)
        ensures
            r == self.negated(),
    {
        IqPixel {
            x: self.x,
            y: self.y,
            c: [255 - self.c[0], 255 - self.c[1], 255 - self.c[2], 255 - self.c[3]],
        }
    }
}

impl PartialEq for IqPixel {
    fn eq(&self, o: &IqPixel) -> (r: bool) {
        let r = self.x == o.x && self.y == o.y && self.c[0] == o.c[0] && self.c[1] == o.c[1]
            && self.c[2] == o.c[2] && self.c[3] == o.c[3];
        proof {
            if r {
                assert(self.c =~= o.c);
            }
        }
        r
    }
}

impl vstd::std_specs::cmp::PartialEqSpecImpl for IqPixel {
    open spec fn obeys_eq_spec() -> bool {
        true
    }

    open spec fn eq_spec(&self, o: &IqPixel) -> bool {
        *self == *o
    }
}

pub open spec fn loc_key(l: Loc) -> u64 {
    (l.0 as int * 0x1_0000_0000 + l.1 as int) as u64
}

proof fn lemma_loc_key_injective(a: Loc, b: Loc)
    ensures
        loc_key(a) == loc_key(b) ==> a == b,
{
    let ka = a.0 as int * 0x1_0000_0000 + a.1 as int;
    let kb = b.0 as int * 0x1_0000_0000 + b.1 as int;
    assert(0 <= ka < 0x1_0000_0000_0000_0000) by (nonlinear_arith)
        requires ka == a.0 as int * 0x1_0000_0000 + a.1 as int, a.0 < 0x1_0000_0000, a.1 < 0x1_0000_0000;
    assert(0 <= kb < 0x1_0000_0000_0000_0000) by (nonlinear_arith)
        requires kb == b.0 as int * 0x1_0000_0000 + b.1 as int, b.0 < 0x1_0000_0000, b.1 < 0x1_0000_0000;
    if ka == kb {
        assert(a.0 == b.0 && a.1 == b.1) by (nonlinear_arith)
            requires
                a.0 as int * 0x1_0000_0000 + a.1 as int == b.0 as int * 0x1_0000_0000 + b.1 as int,
                a.1 < 0x1_0000_0000, b.1 < 0x1_0000_0000, a.1 >= 0, b.1 >= 0;
    }
}

fn key_of(y: u32, x: u32) -> (k: u64)
    ensures
        k == loc_key((y, x)),
{
    (y as u64) * 0x1_0000_0000 + (x as u64)
}

/// `my` is the largest `y` in `d`, or 0 where `d` holds none larger.
pub open spec fn is_span_y(d: Set<Loc>, my: u32) -> bool {
    &&& forall|l: Loc| d.contains(l) ==> l.0 <= my
    &&& (my == 0 || exists|l: Loc| d.contains(l) && l.0 == my)
}

/// `mx` is the largest `x` in `d`, or 0 where `d` holds none larger.
pub open spec fn is_span_x(d: Set<Loc>, mx: u32) -> bool {
    &&& forall|l: Loc| d.contains(l) ==> l.1 <= mx
    &&& (mx == 0 || exists|l: Loc| d.contains(l) && l.1 == mx)
}

/// The largest `y` among the locations (0 for none).
pub open spec fn span_y(d: Set<Loc>) -> u32 {
    choose|my: u32| is_span_y(d, my)
}

/// The largest `x` among the locations (0 for none).
pub open spec fn span_x(d: Set<Loc>) -> u32 {
    choose|mx: u32| is_span_x(d, mx)
}

pub proof fn lemma_span_unique(d: Set<Loc>, my: u32, mx: u32)
    requires
        is_span_y(d, my),
        is_span_x(d, mx),
    ensures
        span_y(d) == my,
        span_x(d) == mx,
{
    let sy = span_y(d);
    let sx = span_x(d);
    if sy != my {
        if sy < my {
            let l = choose|l: Loc| d.contains(l) && l.0 == my;
        } else {
            let l = choose|l: Loc| d.contains(l) && l.0 == sy;
        }
    }
    if sx != mx {
        if sx < mx {
            let l = choose|l: Loc| d.contains(l) && l.1 == mx;
        } else {
            let l = choose|l: Loc| d.contains(l) && l.1 == sx;
        }
    }
}

/// The location at the midpoint of the bounding box of `d`.
pub open spec fn mid_loc(d: Set<Loc>) -> Loc {
    ((span_y(d) / 2) as u32, (span_x(d) / 2) as u32)
}

/// The pixel at the midpoint of the bounding box, or an opaque white pixel there.
pub open spec fn center_of<T>(m: Map<Loc, (IqPixel, T)>) -> IqPixel {
    let l = mid_loc(m.dom());
    if m.contains_key(l) {
        m[l].0
    } else {
        IqPixel { y: l.0, x: l.1, c: [255u8, 255u8, 255u8, 255u8] }
    }
}

/// The locations of the first `j` entries of `order`.
pub open spec fn prefix_locs<T>(order: Seq<(IqPixel, T)>, j: int) -> Set<Loc> {
    Set::new(|l: Loc| exists|k: int| 0 <= k < j && #[trigger] order[k].0.loc() == l)
}

/// The maps of `s` merged in order, a later one winning where two share a location.
pub open spec fn merge_all<T>(s: Seq<Map<Loc, (IqPixel, T)>>) -> Map<Loc, (IqPixel, T)>
    decreases s.len(),
{
    if s.len() == 0 {
        Map::empty()
    } else {
        merge_all(s.drop_last()).union_prefer_right(s.last())
    }
}

/// Whether `l` lies within the inclusive bounds.
pub open spec fn within(l: Loc, lby: u32, uby: u32, lbx: u32, ubx: u32) -> bool {
    lby <= l.0 && l.0 <= uby && lbx <= l.1 && l.1 <= ubx
}

/// The part of `m` inside the given bounds, a missing bound standing for the edge of the box.
pub open spec fn sub_map<T>(
    m: Map<Loc, (IqPixel, T)>,
    y_bounds: (Option<u32>, Option<u32>),
    x_bounds: (Option<u32>, Option<u32>),
) -> Map<Loc, (IqPixel, T)> {
    let lby = match y_bounds.0 { Some(v) => v, None => 0u32 };
    let uby = match y_bounds.1 { Some(v) => v, None => span_y(m.dom()) };
    let lbx = match x_bounds.0 { Some(v) => v, None => 0u32 };
    let ubx = match x_bounds.1 { Some(v) => v, None => span_x(m.dom()) };
    m.restrict(Set::new(|l: Loc| within(l, lby, uby, lbx, ubx)))
}

/// A `h` by `w` grid whose every pixel has channels `c`.
pub open spec fn grid(h: u32, w: u32, c: [u8; 4]) -> Map<Loc, (IqPixel, ())> {
    Map::new(|l: Loc| l.0 < h && l.1 < w, |l: Loc| (IqPixel { y: l.0, x: l.1, c }, ()))
}

/// The map built by inserting `s` in order: each item at its own location, a later one winning.
pub open spec fn build<T>(s: Seq<(IqPixel, T)>) -> Map<Loc, (IqPixel, T)>
    decreases s.len(),
{
    if s.len() == 0 {
        Map::empty()
    } else {
        build(s.drop_last()).insert(s.last().0.loc(), s.last())
    }
}

/// A mapping from locations to pixels, each pixel annotated with a value of type `T`.
///
/// The bounding box spans from the origin to the largest coordinates present.
#[derive(Clone, Debug)]
pub struct Context<T> {
    max_y: u32,
    max_x: u32,
    entries: Vec<(IqPixel, T)>,
    index: HashMap<u64, usize>,
}

/// A plain set of pixels: the image.
pub type BasicContext = Context<()>;

/// One scalar per location: what a scalar expression evaluates to.
pub type AnnotatedScalarContext = Context<crate::num::Num>;

/// One pixel value per location: what a pixel expression evaluates to.
pub type AnnotatedPixelContext = Context<IqPixel>;

impl<T> View for Context<T> {
    type V = Map<Loc, (IqPixel, T)>;

    closed spec fn view(&self) -> Map<Loc, (IqPixel, T)> {
        Map::new(
            |l: Loc| self.index@.contains_key(loc_key(l)),
            |l: Loc| self.entries@[self.index@[loc_key(l)] as int],
        )
    }
}

impl<T: Copy> Context<T> {
    /// The entries in the order in which they are held.
    pub closed spec fn order(&self) -> Seq<(IqPixel, T)> {
        self.entries@
    }

    pub closed spec fn wf(&self) -> bool {
        &&& forall|k: u64| #[trigger]
            self.index@.contains_key(k) ==> self.index@[k] < self.entries@.len() && loc_key(
                self.entries@[self.index@[k] as int].0.loc(),
            ) == k
        &&& forall|i: int|
            0 <= i < self.entries@.len() ==> self.index@.contains_key(
                loc_key(#[trigger] self.entries@[i].0.loc()),
            ) && self.index@[loc_key(self.entries@[i].0.loc())] == i
        &&& self@.dom().finite()
        &&& self@.dom().len() == self.entries@.len()
        &&& forall|i: int|
            0 <= i < self.entries@.len() ==> #[trigger] self.entries@[i].0.y <= self.max_y
                && self.entries@[i].0.x <= self.max_x
        &&& (self.max_y == 0 || exists|i: int|
            0 <= i < self.entries@.len() && #[trigger] self.entries@[i].0.y == self.max_y)
        &&& (self.max_x == 0 || exists|i: int|
            0 <= i < self.entries@.len() && #[trigger] self.entries@[i].0.x == self.max_x)
    }

    /// What a well-formed context guarantees of its model and its order.
    pub proof fn lemma_wf(&self)
        requires
            self.wf(),
        ensures
            self@.dom().finite(),
            self.order().len() == self@.len(),
            forall|l: Loc| #[trigger]
                self@.contains_key(l) ==> self@[l].0.loc() == l,
            forall|i: int|
                0 <= i < self.order().len() ==> self@.contains_key(
                    (#[trigger] self.order()[i]).0.loc(),
                ) && self@[self.order()[i].0.loc()] == self.order()[i],
            forall|l: Loc| #[trigger]
                self@.contains_key(l) ==> exists|i: int|
                    0 <= i < self.order().len() && #[trigger] self.order()[i].0.loc() == l,
            forall|i: int, j: int|
                0 <= i < self.order().len() && 0 <= j < self.order().len() && i != j
                    ==> #[trigger] self.order()[i].0.loc() != #[trigger] self.order()[j].0.loc(),
            is_span_y(self@.dom(), span_y(self@.dom())),
            is_span_x(self@.dom(), span_x(self@.dom())),
    {
        assert forall|l: Loc| #[trigger] self@.contains_key(l) implies self@[l].0.loc() == l by {
            lemma_loc_key_injective(self@[l].0.loc(), l);
        }
        assert forall|l: Loc| #[trigger] self@.contains_key(l) implies exists|i: int|
            0 <= i < self.order().len() && #[trigger] self.order()[i].0.loc() == l by {
            let i = self.index@[loc_key(l)] as int;
            lemma_loc_key_injective(self.entries@[i].0.loc(), l);
            assert(0 <= i < self.order().len() && self.order()[i].0.loc() == l);
        }
        assert forall|i: int|
            0 <= i < self.order().len() implies self@.contains_key(
            (#[trigger] self.order()[i]).0.loc(),
        ) && self@[self.order()[i].0.loc()] == self.order()[i] by {}
        self.lemma_bounds();
        lemma_span_unique(self@.dom(), self.max_y, self.max_x);
    }

    proof fn lemma_bounds(&self)
        requires
            self.wf(),
        ensures
            is_span_y(self@.dom(), self.max_y),
            is_span_x(self@.dom(), self.max_x),
            span_y(self@.dom()) == self.max_y,
            span_x(self@.dom()) == self.max_x,
    {
        assert(is_span_y(self@.dom(), self.max_y) && is_span_x(self@.dom(), self.max_x)) by {
            if self.max_y != 0 {
                let i = choose|i: int|
                    0 <= i < self.entries@.len() && #[trigger] self.entries@[i].0.y == self.max_y;
                assert(self@.dom().contains(self.entries@[i].0.loc()));
            }
            if self.max_x != 0 {
                let i = choose|i: int|
                    0 <= i < self.entries@.len() && #[trigger] self.entries@[i].0.x == self.max_x;
                assert(self@.dom().contains(self.entries@[i].0.loc()));
            }
            assert forall|l: Loc| self@.dom().contains(l) implies l.0 <= self.max_y && l.1
                <= self.max_x by {
                let i = self.index@[loc_key(l)] as int;
                lemma_loc_key_injective(self.entries@[i].0.loc(), l);
            }
        }
        lemma_span_unique(self@.dom(), self.max_y, self.max_x);
    }

    /// The context with no pixels.
    pub fn empty() -> (r: Self)
        ensures
            r.wf(),
            r@ == Map::<Loc, (IqPixel, T)>::empty(),
    {
        let r = Context { max_y: 0, max_x: 0, entries: Vec::new(), index: HashMap::new() };
        assert(r@ =~= Map::<Loc, (IqPixel, T)>::empty());
        r
    }

    /// Adds `pixel` at its location, or replaces what was there, with `annotation`.
    pub fn insert_with_annotation(&mut self, pixel: IqPixel, annotation: T)
        requires
            old(self).wf(),
        ensures
            final(self).wf(),
            final(self)@ == old(self)@.insert(pixel.loc(), (pixel, annotation)),
    {
        proof {
            self.lemma_wf();
        }
        let ghost before = self@;
        let k = key_of(pixel.y, pixel.x);
        if pixel.y > self.max_y {
            self.max_y = pixel.y;
        }
        if pixel.x > self.max_x {
            self.max_x = pixel.x;
        }
        match self.index.get(&k) {
            Some(i) => {
                let i = *i;
                proof {
                    lemma_loc_key_injective(self.entries@[i as int].0.loc(), pixel.loc());
                }
                self.entries.set(i, (pixel, annotation));
                proof {
                    assert(self@ =~= before.insert(pixel.loc(), (pixel, annotation)));
                    assert(self@.dom() =~= before.dom());
                    assert forall|k2: u64| #[trigger] self.index@.contains_key(k2) implies self.index@[k2] < self.entries@.len() && loc_key(self.entries@[self.index@[k2] as int].0.loc()) == k2 by {
                        if self.index@[k2] == i {
                            assert(loc_key(old(self).entries@[i as int].0.loc()) == k2);
                        }
                    }
                    assert forall|i2: int| 0 <= i2 < self.entries@.len() implies self.index@.contains_key(loc_key(#[trigger] self.entries@[i2].0.loc())) && self.index@[loc_key(self.entries@[i2].0.loc())] == i2 by {
                        if i2 != i {
                            assert(old(self).entries@[i2] == self.entries@[i2]);
                        }
                    }
                    assert forall|i2: int| 0 <= i2 < self.entries@.len() implies #[trigger] self.entries@[i2].0.y <= self.max_y
                        && self.entries@[i2].0.x <= self.max_x by {}
                    if self.max_y != 0 {
                        if self.max_y == pixel.y {
                            assert(self.entries@[i as int].0.y == self.max_y);
                        } else {
                            let j = choose|j: int| 0 <= j < old(self).entries@.len() && #[trigger] old(self).entries@[j].0.y == self.max_y;
                            assert(j != i);
                            assert(self.entries@[j].0.y == self.max_y);
                        }
                    }
                    if self.max_x != 0 {
                        if self.max_x == pixel.x {
                            assert(self.entries@[i as int].0.x == self.max_x);
                        } else {
                            let j = choose|j: int| 0 <= j < old(self).entries@.len() && #[trigger] old(self).entries@[j].0.x == self.max_x;
                            assert(j != i);
                            assert(self.entries@[j].0.x == self.max_x);
                        }
                    }
                }
            },
            None => {
                let n = self.entries.len();
                self.entries.push((pixel, annotation));
                self.index.insert(k, n);
                proof {
                    assert forall|i2: int| 0 <= i2 < n implies #[trigger] self.entries@[i2].0.loc() != pixel.loc() by {
                        assert(old(self).index@.contains_key(loc_key(old(self).entries@[i2].0.loc())));
                    }
                    assert forall|k2: u64| #[trigger] self.index@.contains_key(k2) implies self.index@[k2] < self.entries@.len() && loc_key(self.entries@[self.index@[k2] as int].0.loc()) == k2 by {
                        if k2 != k {
                            assert(old(self).index@.contains_key(k2));
                        }
                    }
                    assert forall|i2: int| 0 <= i2 < self.entries@.len() implies self.index@.contains_key(loc_key(#[trigger] self.entries@[i2].0.loc())) && self.index@[loc_key(self.entries@[i2].0.loc())] == i2 by {
                        if i2 != n {
                            assert(old(self).entries@[i2] == self.entries@[i2]);
                            assert(old(self).index@.contains_key(loc_key(old(self).entries@[i2].0.loc())));
                        }
                    }
                    assert(self@ =~= before.insert(pixel.loc(), (pixel, annotation)));
                    assert(self@.dom() =~= before.dom().insert(pixel.loc()));
                    assert(!before.dom().contains(pixel.loc()));
                    assert(self.entries@[n as int] == (pixel, annotation));
                    assert(self@.dom().len() == self.entries@.len());
                    if self.max_y != 0 {
                        if self.max_y != pixel.y {
                            let j = choose|j: int| 0 <= j < old(self).entries@.len() && #[trigger] old(self).entries@[j].0.y == self.max_y;
                            assert(self.entries@[j].0.y == self.max_y);
                        } else {
                            assert(self.entries@[n as int].0.y == self.max_y);
                        }
                    }
                    if self.max_x != 0 {
                        if self.max_x != pixel.x {
                            let j = choose|j: int| 0 <= j < old(self).entries@.len() && #[trigger] old(self).entries@[j].0.x == self.max_x;
                            assert(self.entries@[j].0.x == self.max_x);
                        } else {
                            assert(self.entries@[n as int].0.x == self.max_x);
                        }
                    }
                }
            },
        }
    }

    /// The number of pixels.
    pub fn count(&self) -> (r: usize)
        requires
            self.wf(),
        ensures
            r == self@.len(),
    {
        self.entries.len()
    }

    /// The `i`-th entry in the order in which the context holds them.
    pub fn entry(&self, i: usize) -> (r: (IqPixel, T))
        requires
            i < self.order().len(),
        ensures
            r == self.order()[i as int],
    {
        self.entries[i]
    }

    /// The annotation of the pixel at `loc`, if there is one.
    pub fn get_annotation_at_loc(&self, loc: Loc) -> (r: Option<&T>)
        requires
            self.wf(),
        ensures
            r matches Some(a) <==> self@.contains_key(loc),
            r matches Some(a) ==> *a == self@[loc].1,
    {
        let k = key_of(loc.0, loc.1);
        match self.index.get(&k) {
            Some(i) => Some(&self.entries[*i].1),
            None => None,
        }
    }

    /// The annotation at the location of `pixel`, if there is one.
    pub fn get_annotation(&self, pixel: &IqPixel) -> (r: Option<&T>)
        requires
            self.wf(),
        ensures
            r matches Some(a) <==> self@.contains_key(pixel.loc()),
            r matches Some(a) ==> *a == self@[pixel.loc()].1,
    {
        self.get_annotation_at_loc((pixel.y, pixel.x))
    }

    /// The pixel stored at `loc`, if there is one.
    pub fn get_pixel(&self, loc: Loc) -> (r: Option<IqPixel>)
        requires
            self.wf(),
        ensures
            r matches Some(p) <==> self@.contains_key(loc),
            r matches Some(p) ==> p == self@[loc].0,
    {
        let k = key_of(loc.0, loc.1);
        match self.index.get(&k) {
            Some(i) => Some(self.entries[*i].0),
            None => None,
        }
    }

    /// The smallest and largest `x` of the bounding box.
    pub fn x_bounds(&self) -> (r: (u32, u32))
        requires
            self.wf(),
        ensures
            r == (0u32, span_x(self@.dom())),
    {
        proof {
            self.lemma_bounds();
        }
        (0, self.max_x)
    }

    /// The smallest and largest `y` of the bounding box.
    pub fn y_bounds(&self) -> (r: (u32, u32))
        requires
            self.wf(),
        ensures
            r == (0u32, span_y(self@.dom())),
    {
        proof {
            self.lemma_bounds();
        }
        (0, self.max_y)
    }

    /// The width of the bounding box: its largest `x` less its smallest.
    pub fn width(&self) -> (r: u32)
        requires
            self.wf(),
        ensures
            r == span_x(self@.dom()),
    {
        let (lo, hi) = self.x_bounds();
        hi - lo
    }

    /// The height of the bounding box: its largest `y` less its smallest.
    pub fn height(&self) -> (r: u32)
        requires
            self.wf(),
        ensures
            r == span_y(self@.dom()),
    {
        let (lo, hi) = self.y_bounds();
        hi - lo
    }

    /// The pixel at the midpoint of the bounding box, or an opaque white pixel there
    /// where the context holds none.
    pub fn center(&self) -> (r: IqPixel)
        requires
            self.wf(),
        ensures
            r == center_of(self@),
    {
        let (_, my) = self.y_bounds();
        let (_, mx) = self.x_bounds();
        let y = my / 2;
        let x = mx / 2;
        match self.get_pixel((y, x)) {
            Some(p) => p,
            None => IqPixel { y, x, c: [255, 255, 255, 255] },
        }
    }

    /// The annotation of one of the pixels.
    pub fn first(&self) -> (r: &T)
        requires
            self.wf(),
            self@.len() > 0,
        ensures
            self@.contains_key(self.order()[0].0.loc()),
            *r == self@[self.order()[0].0.loc()].1,
    {
        proof {
            self.lemma_wf();
        }
        &self.entries[0].1
    }

    /// The pixels, in the order in which the context holds them.
    pub fn iter(&self) -> (r: Vec<IqPixel>)
        requires
            self.wf(),
        ensures
            r@ == self.order().map_values(|e: (IqPixel, T)| e.0),
            r@.len() == self@.len(),
            forall|i: int| 0 <= i < r@.len() ==> self@.contains_key((#[trigger] r@[i]).loc()) && self@[r@[i].loc()].0 == r@[i],
            forall|l: Loc| #[trigger] self@.contains_key(l) ==> exists|i: int| 0 <= i < r@.len() && #[trigger] r@[i].loc() == l,
    {
        proof {
            self.lemma_wf();
        }
        let mut r: Vec<IqPixel> = Vec::new();
        let n = self.entries.len();
        for i in 0..n
            invariant
                n == self.order().len(),
                r@ == self.order().subrange(0, i as int).map_values(|e: (IqPixel, T)| e.0),
        {
            r.push(self.entries[i].0);
            proof {
                assert(self.order().subrange(0, i + 1).map_values(|e: (IqPixel, T)| e.0)
                    =~= self.order().subrange(0, i as int).map_values(|e: (IqPixel, T)| e.0).push(self.order()[i as int].0));
            }
        }
        proof {
            assert(self.order().subrange(0, n as int) =~= self.order());
            assert forall|l: Loc| #[trigger] self@.contains_key(l) implies exists|i: int|
                0 <= i < r@.len() && #[trigger] r@[i].loc() == l by {
                let k = choose|k: int| 0 <= k < self.order().len() && #[trigger] self.order()[k].0.loc() == l;
                assert(r@[k].loc() == l);
            }
        }
        r
    }

    /// The pixels with their annotations, in the order in which the context holds them.
    pub fn iter_annotations(&self) -> (r: Vec<(IqPixel, T)>)
        requires
            self.wf(),
        ensures
            r@ == self.order(),
            r@.len() == self@.len(),
            forall|i: int| 0 <= i < r@.len() ==> self@.contains_key((#[trigger] r@[i]).0.loc()) && self@[r@[i].0.loc()] == r@[i],
    {
        proof {
            self.lemma_wf();
        }
        let mut r: Vec<(IqPixel, T)> = Vec::new();
        let n = self.entries.len();
        for i in 0..n
            invariant
                n == self.order().len(),
                r@ == self.order().subrange(0, i as int),
        {
            r.push(self.entries[i]);
            proof {
                assert(self.order().subrange(0, i + 1) =~= self.order().subrange(0, i as int).push(self.order()[i as int]));
            }
        }
        proof {
            assert(self.order().subrange(0, n as int) =~= self.order());
        }
        r
    }

    /// After `j` entries: the locations seen so far grow by one, and at the end they are all.
    pub proof fn lemma_prefix(&self, j: int)
        requires
            self.wf(),
            0 <= j < self.order().len(),
        ensures
            prefix_locs(self.order(), j + 1) == prefix_locs(self.order(), j).insert(
                self.order()[j].0.loc(),
            ),
            prefix_locs(self.order(), j).subset_of(self@.dom()),
            !prefix_locs(self.order(), j).contains(self.order()[j].0.loc()),
    {
        self.lemma_wf();
        assert(prefix_locs(self.order(), j + 1) =~= prefix_locs(self.order(), j).insert(
            self.order()[j].0.loc(),
        ));
    }

    pub proof fn lemma_prefix_all(&self)
        requires
            self.wf(),
        ensures
            prefix_locs(self.order(), self.order().len() as int) == self@.dom(),
            prefix_locs(self.order(), 0) == Set::<Loc>::empty(),
    {
        self.lemma_wf();
        assert(prefix_locs(self.order(), self.order().len() as int) =~= self@.dom());
        assert(prefix_locs(self.order(), 0) =~= Set::<Loc>::empty());
    }

    /// Copies every pixel of `src` into `self`, replacing what `self` held at those locations.
    pub fn merge_from(&mut self, src: &Self)
        requires
            old(self).wf(),
            src.wf(),
        ensures
            final(self).wf(),
            final(self)@ == old(self)@.union_prefer_right(src@),
    {
        let ghost base = self@;
        let n = src.entries.len();
        proof {
            src.lemma_prefix_all();
            assert(base =~= base.union_prefer_right(src@.restrict(prefix_locs(src.order(), 0))));
        }
        for j in 0..n
            invariant
                self.wf(),
                src.wf(),
                n == src.order().len(),
                self@ == base.union_prefer_right(src@.restrict(prefix_locs(src.order(), j as int))),
        {
            let e = src.entries[j];
            self.insert_with_annotation(e.0, e.1);
            proof {
                src.lemma_prefix(j as int);
                src.lemma_wf();
                assert(self@ =~= base.union_prefer_right(src@.restrict(prefix_locs(src.order(), j + 1))));
            }
        }
        proof {
            src.lemma_prefix_all();
            assert(src@.restrict(src@.dom()) =~= src@);
        }
    }

    /// A copy of the context.
    pub fn duplicate(&self) -> (r: Self)
        requires
            self.wf(),
        ensures
            r.wf(),
            r@ == self@,
    {
        let mut r = Self::empty();
        r.merge_from(self);
        assert(r@ =~= self@);
        r
    }

    /// The pixels of all the contexts; where two share a location, the later one wins.
    pub fn from_contexts(contexts: Vec<Self>) -> (r: Self)
        requires
            forall|i: int| 0 <= i < contexts@.len() ==> (#[trigger] contexts@[i]).wf(),
        ensures
            r.wf(),
            r@ == merge_all(contexts@.map_values(|c: Self| c@)),
    {
        let mut out = Self::empty();
        let n = contexts.len();
        let ghost views = contexts@.map_values(|c: Self| c@);
        for i in 0..n
            invariant
                out.wf(),
                n == contexts@.len(),
                views == contexts@.map_values(|c: Self| c@),
                forall|i: int| 0 <= i < contexts@.len() ==> (#[trigger] contexts@[i]).wf(),
                out@ == merge_all(views.subrange(0, i as int)),
        {
            out.merge_from(&contexts[i]);
            proof {
                let p = views.subrange(0, i + 1);
                assert(p.drop_last() =~= views.subrange(0, i as int));
            }
        }
        proof {
            assert(views.subrange(0, n as int) =~= views);
        }
        out
    }

    /// The pixels within the inclusive bounds; a missing bound stands for the edge of the box.
    pub fn subcontext(
        &self,
        y_bounds: (Option<u32>, Option<u32>),
        x_bounds: (Option<u32>, Option<u32>),
    ) -> (r: Self)
        requires
            self.wf(),
        ensures
            r.wf(),
            r@ == sub_map(self@, y_bounds, x_bounds),
    {
        let (_, my) = self.y_bounds();
        let (_, mx) = self.x_bounds();
        let lby = match y_bounds.0 { Some(v) => v, None => 0 };
        let uby = match y_bounds.1 { Some(v) => v, None => my };
        let lbx = match x_bounds.0 { Some(v) => v, None => 0 };
        let ubx = match x_bounds.1 { Some(v) => v, None => mx };
        let ghost keep = Set::new(|l: Loc| within(l, lby, uby, lbx, ubx));
        let mut out = Self::empty();
        let n = self.entries.len();
        proof {
            self.lemma_prefix_all();
            assert(out@ =~= self@.restrict(keep.intersect(prefix_locs(self.order(), 0))));
        }
        for j in 0..n
            invariant
                self.wf(),
                out.wf(),
                n == self.order().len(),
                keep == Set::new(|l: Loc| within(l, lby, uby, lbx, ubx)),
                out@ == self@.restrict(keep.intersect(prefix_locs(self.order(), j as int))),
        {
            let e = self.entries[j];
            proof {
                self.lemma_prefix(j as int);
                self.lemma_wf();
            }
            if lby <= e.0.y && e.0.y <= uby && lbx <= e.0.x && e.0.x <= ubx {
                out.insert_with_annotation(e.0, e.1);
            }
            proof {
                assert(out@ =~= self@.restrict(keep.intersect(prefix_locs(self.order(), j + 1))));
            }
        }
        proof {
            self.lemma_prefix_all();
            assert(keep.intersect(self@.dom()) =~= Set::new(|l: Loc| within(l, lby, uby, lbx, ubx)).intersect(self@.dom()));
            assert(out@ =~= sub_map(self@, y_bounds, x_bounds));
        }
        out
    }

    /// The pixels of `self` at the locations that `selection_ctx` holds.
    pub fn select(&self, selection_ctx: Context<T>) -> (r: Context<T>)
        requires
            self.wf(),
            selection_ctx.wf(),
        ensures
            r.wf(),
            r@ == self@.restrict(selection_ctx@.dom()),
    {
        let ghost keep = selection_ctx@.dom();
        let mut out = Self::empty();
        let n = self.entries.len();
        proof {
            self.lemma_prefix_all();
            assert(out@ =~= self@.restrict(keep.intersect(prefix_locs(self.order(), 0))));
        }
        for j in 0..n
            invariant
                self.wf(),
                out.wf(),
                selection_ctx.wf(),
                n == self.order().len(),
                keep == selection_ctx@.dom(),
                out@ == self@.restrict(keep.intersect(prefix_locs(self.order(), j as int))),
        {
            let e = self.entries[j];
            proof {
                self.lemma_prefix(j as int);
                self.lemma_wf();
            }
            if selection_ctx.get_pixel((e.0.y, e.0.x)).is_some() {
                out.insert_with_annotation(e.0, e.1);
            }
            proof {
                assert(out@ =~= self@.restrict(keep.intersect(prefix_locs(self.order(), j + 1))));
            }
        }
        proof {
            self.lemma_prefix_all();
            assert(out@ =~= self@.restrict(keep));
        }
        out
    }

    /// Every pixel of `ctx`, each annotated with `default`.
    pub fn like<U: Copy>(ctx: &Context<U>, default: &T) -> (r: Self)
        requires
            ctx.wf(),
        ensures
            r.wf(),
            r@ == ctx@.map_values(|e: (IqPixel, U)| (e.0, *default)),
    {
        let mut out = Self::empty();
        let n = ctx.count();
        proof {
            ctx.lemma_prefix_all();
            ctx.lemma_wf();
        }
        for j in 0..n
            invariant
                ctx.wf(),
                out.wf(),
                n == ctx.order().len(),
                out@ == ctx@.restrict(prefix_locs(ctx.order(), j as int)).map_values(|e: (IqPixel, U)| (e.0, *default)),
        {
            let e = ctx.entry(j);
            proof {
                ctx.lemma_prefix(j as int);
                ctx.lemma_wf();
            }
            out.insert_with_annotation(e.0, *default);
            proof {
                assert(out@ =~= ctx@.restrict(prefix_locs(ctx.order(), j + 1)).map_values(|e: (IqPixel, U)| (e.0, *default)));
            }
        }
        proof {
            ctx.lemma_prefix_all();
            assert(ctx@.restrict(ctx@.dom()) =~= ctx@);
        }
        out
    }

    /// The context built by inserting the items in order, each with its annotation.
    pub fn from_iter_with_annotation(items: Vec<(IqPixel, T)>) -> (r: Self)
        ensures
            r.wf(),
            r@ == build(items@),
    {
        let mut out = Self::empty();
        let n = items.len();
        for j in 0..n
            invariant
                out.wf(),
                n == items@.len(),
                out@ == build(items@.subrange(0, j as int)),
        {
            let e = items[j];
            out.insert_with_annotation(e.0, e.1);
            proof {
                assert(items@.subrange(0, j + 1).drop_last() =~= items@.subrange(0, j as int));
            }
        }
        proof {
            assert(items@.subrange(0, n as int) =~= items@);
        }
        out
    }
    /// Whether both contexts hold pixels at exactly the same locations.
    pub fn same_locations<U: Copy>(&self, o: &Context<U>) -> (r: bool)
        requires
            self.wf(),
            o.wf(),
        ensures
            r == (self@.dom() == o@.dom()),
    {
        proof {
            self.lemma_wf();
            o.lemma_wf();
        }
        let n = self.entries.len();
        if n != o.count() {
            return false;
        }
        for j in 0..n
            invariant
                self.wf(),
                o.wf(),
                n == self.order().len(),
                self@.len() == o@.len(),
                forall|k: int| 0 <= k < j ==> o@.contains_key(#[trigger] self.order()[k].0.loc()),
        {
            let p = self.entries[j].0;
            proof {
                self.lemma_wf();
            }
            if o.get_pixel((p.y, p.x)).is_none() {
                proof {
                    assert(self@.contains_key(self.order()[j as int].0.loc()));
                }
                return false;
            }
        }
        proof {
            self.lemma_wf();
            assert(self@.dom().subset_of(o@.dom())) by {
                assert forall|l: Loc| self@.contains_key(l) implies o@.contains_key(l) by {
                    let k = choose|k: int| 0 <= k < self.order().len() && #[trigger] self.order()[k].0.loc() == l;
                }
            }
            vstd::set_lib::lemma_subset_equality(self@.dom(), o@.dom());
        }
        true
    }
}

impl Context<()> {
    /// Adds `pixel` at its location, or replaces the pixel there.
    pub fn insert(&mut self, pixel: IqPixel)
        requires
            old(self).wf(),
        ensures
            final(self).wf(),
            final(self)@ == old(self)@.insert(pixel.loc(), (pixel, ())),
    {
        self.insert_with_annotation(pixel, ());
    }

    /// A `h` by `w` canvas whose every pixel has channels `c`.
    pub fn blank_with_default(h: u32, w: u32, c: [u8; 4]) -> (r: Self)
        ensures
            r.wf(),
            r@ == grid(h, w, c),
    {
        let mut ctx = Self::empty();
        for y in 0..h
            invariant
                ctx.wf(),
                ctx@ == Map::new(
                    |l: Loc| l.0 < y && l.1 < w,
                    |l: Loc| (IqPixel { y: l.0, x: l.1, c }, ()),
                ),
        {
            for x in 0..w
                invariant
                    ctx.wf(),
                    y < h,
                    ctx@ == Map::new(
                        |l: Loc| (l.0 < y && l.1 < w) || (l.0 == y && l.1 < x),
                        |l: Loc| (IqPixel { y: l.0, x: l.1, c }, ()),
                    ),
            {
                ctx.insert(IqPixel { y, x, c });
                assert(ctx@ =~= Map::new(
                    |l: Loc| (l.0 < y && l.1 < w) || (l.0 == y && l.1 < x + 1),
                    |l: Loc| (IqPixel { y: l.0, x: l.1, c }, ()),
                ));
            }
            assert(ctx@ =~= Map::new(
                |l: Loc| l.0 < y + 1 && l.1 < w,
                |l: Loc| (IqPixel { y: l.0, x: l.1, c }, ()),
            ));
        }
        assert(ctx@ =~= grid(h, w, c));
        ctx
    }

    /// A `h` by `w` canvas of opaque white.
    pub fn blank(h: u32, w: u32) -> (r: Self)
        ensures
            r.wf(),
            r@ == grid(h, w, [255u8, 255u8, 255u8, 255u8]),
    {
        Self::blank_with_default(h, w, [255, 255, 255, 255])
    }

    /// The context built by inserting the pixels in order.
    pub fn from_iter(pixels: Vec<IqPixel>) -> (r: Self)
        ensures
            r.wf(),
            r@ == build(pixels@.map_values(|p: IqPixel| (p, ()))),
    {
        let mut out = Self::empty();
        let n = pixels.len();
        let ghost items = pixels@.map_values(|p: IqPixel| (p, ()));
        for j in 0..n
            invariant
                out.wf(),
                n == pixels@.len(),
                items == pixels@.map_values(|p: IqPixel| (p, ())),
                out@ == build(items.subrange(0, j as int)),
        {
            out.insert(pixels[j]);
            proof {
                assert(items.subrange(0, j + 1).drop_last() =~= items.subrange(0, j as int));
            }
        }
        proof {
            assert(items.subrange(0, n as int) =~= items);
        }
        out
    }

    /// A short description for messages.
    pub fn describe(&self) -> (r: String)
        ensures
            r@ == "<details>"@,
    {
        "<details>".to_owned()
    }

    /// Whether both contexts hold the same pixels at the same locations.
    pub fn same_as(&self, o: &Self) -> (r: bool)
        ensures
            self.wf() && o.wf() ==> r == (self@ == o@),
    {
        let n = self.entries.len();
        if n != o.entries.len() {
            proof {
                if self.wf() && o.wf() {
                    self.lemma_wf();
                    o.lemma_wf();
                }
            }
            return false;
        }
        let mut j: usize = 0;
        while j < n
            invariant
                j <= n,
                n == self.entries@.len(),
                self.wf() && o.wf() ==> forall|k: int|
                    0 <= k < j ==> #[trigger] o@.contains_key(self.order()[k].0.loc())
                        && o@[self.order()[k].0.loc()] == self.order()[k],
            decreases n - j,
        {
            let p = self.entries[j].0;
            let k = key_of(p.y, p.x);
            let found = match o.index.get(&k) {
                Some(i) => {
                    let i = *i;
                    if i < o.entries.len() {
                        let q = o.entries[i].0;
                        let same = q == p;
                        proof {
                            if same && self.wf() && o.wf() {
                                assert(o.index@.contains_key(k) && o.index@[k] == i);
                                lemma_loc_key_injective(q.loc(), p.loc());
                                assert(o@.contains_key(p.loc()));
                                assert(o@[p.loc()] == self.order()[j as int]);
                            }
                        }
                        same
                    } else {
                        false
                    }
                },
                None => false,
            };
            if !found {
                proof {
                    if self.wf() && o.wf() {
                        self.lemma_wf();
                        o.lemma_wf();
                        assert(self@.contains_key(p.loc()));
                        if o@.contains_key(p.loc()) {
                            assert(o@[p.loc()].0 != p);
                        }
                    }
                }
                return false;
            }
            proof {
                if self.wf() && o.wf() {
                    self.lemma_wf();
                    o.lemma_wf();
                    let i = o.index@[k] as int;
                    lemma_loc_key_injective(o.entries@[i].0.loc(), p.loc());
                    assert(o@.contains_key(p.loc()));
                    assert(o@[p.loc()].0 == self.order()[j as int].0);
                    assert(o@[p.loc()] == self.order()[j as int]);
                    assert forall|k2: int| 0 <= k2 < j + 1 implies #[trigger] o@.contains_key(self.order()[k2].0.loc())
                        && o@[self.order()[k2].0.loc()] == self.order()[k2] by {
                        if k2 < j {
                        } else {
                            assert(k2 == j);
                        }
                    }
                }
            }
            j = j + 1;
        }
        proof {
            if self.wf() && o.wf() {
                self.lemma_wf();
                o.lemma_wf();
                assert(self@.dom().subset_of(o@.dom()));
                vstd::set_lib::lemma_subset_equality(self@.dom(), o@.dom());
                assert(self@ =~= o@);
            }
        }
        true
    }
}

impl PartialEq for Context<()> {
    fn eq(&self, o: &Self) -> (r: bool) {
        self.same_as(o)
    }
}

impl vstd::std_specs::cmp::PartialEqSpecImpl for Context<()> {
    open spec fn obeys_eq_spec() -> bool {
        false
    }

    open spec fn eq_spec(&self, o: &Self) -> bool {
        self@ == o@
    }
}

} // verus!
