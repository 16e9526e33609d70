//! Named attributes: `x`, `y`, `r`, `g`, `b`, `a` of a pixel and `w`, `h` of a context.
use crate::context::{AnnotatedPixelContext, AnnotatedScalarContext, Context, IqPixel, Loc, prefix_locs, span_x, span_y};
use crate::error::EvalError;
use crate::num::Num;
use vstd::prelude::*;

verus! {

/// An attribute that a key names.
#[derive(Clone, Copy, Debug, PartialEq, Eq, Structural)]
pub enum Attr {
    X,
    Y,
    R,
    G,
    B,
    A,
    W,
    H,
}

/// The attribute that `key` names, ignoring ASCII case.
pub open spec fn attr_of(key: Seq<char>) -> Option<Attr> {
    if key == seq!['x'] || key == seq!['X'] {
        Some(Attr::X)
    } else if key == seq!['y'] || key == seq!['Y'] {
        Some(Attr::Y)
    } else if key == seq!['r'] || key == seq!['R'] {
        Some(Attr::R)
    } else if key == seq!['g'] || key == seq!['G'] {
        Some(Attr::G)
    } else if key == seq!['b'] || key == seq!['B'] {
        Some(Attr::B)
    } else if key == seq!['a'] || key == seq!['A'] {
        Some(Attr::A)
    } else if key == seq!['w'] || key == seq!['W'] {
        Some(Attr::W)
    } else if key == seq!['h'] || key == seq!['H'] {
        Some(Attr::H)
    } else {
        None
    }
}

/// Whether the attribute belongs to a pixel rather than to a whole context.
pub open spec fn is_pixel_attr(a: Attr) -> bool {
    !(a is W || a is H)
}

/// The attribute `a` of the pixel `p`, as a scalar.
pub open spec fn pixel_attr(p: IqPixel, a: Attr) -> Num {
    match a {
        Attr::X => Num::of_int_spec(p.x as int),
        Attr::Y => Num::of_int_spec(p.y as int),
        Attr::R => Num::of_int_spec(p.c[0] as int),
        Attr::G => Num::of_int_spec(p.c[1] as int),
        Attr::B => Num::of_int_spec(p.c[2] as int),
        Attr::A => Num::of_int_spec(p.c[3] as int),
        _ => Num::Undefined,
    }
}

/// The attribute `a` read from the value at every location.
pub open spec fn attr_map(m: Map<Loc, (IqPixel, IqPixel)>, a: Attr) -> Map<Loc, (IqPixel, Num)> {
    m.map_values(|e: (IqPixel, IqPixel)| (e.0, pixel_attr(e.1, a)))
}

/// The width or height of the context with locations `d`, as a scalar.
pub open spec fn context_attr(d: Set<Loc>, a: Attr) -> Num {
    match a {
        Attr::W => Num::of_int_spec(span_x(d) as int),
        _ => Num::of_int_spec(span_y(d) as int),
    }
}

fn names(key: &String, lower: &str, upper: &str) -> (r: bool)
    ensures
        r == (key@ == lower@ || key@ == upper@),
{
    let lo = lower.to_owned();
    let up = upper.to_owned();
    *key == lo || *key == up
}

/// The attribute that `key` names, ignoring ASCII case.
pub fn resolve(key: &String) -> (r: Option<Attr>)
    ensures
        r == attr_of(key@),
{
    proof {
        reveal_strlit("x");
        assert("x"@ =~= seq!['x']);
        reveal_strlit("X");
        assert("X"@ =~= seq!['X']);
        reveal_strlit("y");
        assert("y"@ =~= seq!['y']);
        reveal_strlit("Y");
        assert("Y"@ =~= seq!['Y']);
        reveal_strlit("r");
        assert("r"@ =~= seq!['r']);
        reveal_strlit("R");
        assert("R"@ =~= seq!['R']);
        reveal_strlit("g");
        assert("g"@ =~= seq!['g']);
        reveal_strlit("G");
        assert("G"@ =~= seq!['G']);
        reveal_strlit("b");
        assert("b"@ =~= seq!['b']);
        reveal_strlit("B");
        assert("B"@ =~= seq!['B']);
        reveal_strlit("a");
        assert("a"@ =~= seq!['a']);
        reveal_strlit("A");
        assert("A"@ =~= seq!['A']);
        reveal_strlit("w");
        assert("w"@ =~= seq!['w']);
        reveal_strlit("W");
        assert("W"@ =~= seq!['W']);
        reveal_strlit("h");
        assert("h"@ =~= seq!['h']);
        reveal_strlit("H");
        assert("H"@ =~= seq!['H']);
    }
    if names(key, "x", "X") {
        Some(Attr::X)
    } else if names(key, "y", "Y") {
        Some(Attr::Y)
    } else if names(key, "r", "R") {
        Some(Attr::R)
    } else if names(key, "g", "G") {
        Some(Attr::G)
    } else if names(key, "b", "B") {
        Some(Attr::B)
    } else if names(key, "a", "A") {
        Some(Attr::A)
    } else if names(key, "w", "W") {
        Some(Attr::W)
    } else if names(key, "h", "H") {
        Some(Attr::H)
    } else {
        None
    }
}

fn read_attr(p: IqPixel, a: Attr) -> (r: Num)
    ensures
        r == pixel_attr(p, a),
{
    match a {
        Attr::X => Num::of_int(p.x as i64),
        Attr::Y => Num::of_int(p.y as i64),
        Attr::R => Num::of_int(p.c[0] as i64),
        Attr::G => Num::of_int(p.c[1] as i64),
        Attr::B => Num::of_int(p.c[2] as i64),
        Attr::A => Num::of_int(p.c[3] as i64),
        _ => Num::Undefined,
    }
}

/// One of `x`, `y`, `r`, `g`, `b`, `a` read from the value at every location.
pub fn access_scalar_annotated_ctx_attr(ctx: &AnnotatedPixelContext, attr: &String) -> (r: Result<
    AnnotatedScalarContext,
    EvalError,
>)
    requires
        ctx.wf(),
    ensures
        r is Ok <==> (attr_of(attr@) matches Some(a) && is_pixel_attr(a)),
        r matches Ok(c) ==> c.wf() && c@ == attr_map(ctx@, attr_of(attr@)->0),
        r matches Err(e) ==> e == EvalError::UnknownAttribute(*attr),
{
    let a = match resolve(attr) {
        Some(a) => a,
        None => {
            return Err(EvalError::UnknownAttribute(attr.clone()));
        },
    };
    if let Attr::W = a {
        return Err(EvalError::UnknownAttribute(attr.clone()));
    }
    if let Attr::H = a {
        return Err(EvalError::UnknownAttribute(attr.clone()));
    }
    let mut out = AnnotatedScalarContext::empty();
    let n = ctx.count();
    proof {
        ctx.lemma_prefix_all();
        ctx.lemma_wf();
    }
    for j in 0..n
        invariant
            ctx.wf(),
            out.wf(),
            n == ctx.order().len(),
            out@ == attr_map(ctx@.restrict(prefix_locs(ctx.order(), j as int)), a),
    {
        let e = ctx.entry(j);
        proof {
            ctx.lemma_prefix(j as int);
            ctx.lemma_wf();
        }
        out.insert_with_annotation(e.0, read_attr(e.1, a));
        proof {
            assert(out@ =~= attr_map(ctx@.restrict(prefix_locs(ctx.order(), j + 1)), a));
        }
    }
    proof {
        ctx.lemma_prefix_all();
        assert(ctx@.restrict(ctx@.dom()) =~= ctx@);
    }
    Ok(out)
}

/// `w` or `h` of a whole context: the width or height of its bounding box.
pub fn access_scalar_attr<T: Copy>(ctx: &Context<T>, attr: &String) -> (r: Result<Num, EvalError>)
    requires
        ctx.wf(),
    ensures
        r is Ok <==> (attr_of(attr@) matches Some(a) && !is_pixel_attr(a)),
        r matches Ok(v) ==> v == context_attr(ctx@.dom(), attr_of(attr@)->0),
        r matches Err(e) ==> e == EvalError::UnknownAttribute(*attr),
{
    match resolve(attr) {
        Some(Attr::H) => Ok(Num::of_int(ctx.height() as i64)),
        Some(Attr::W) => Ok(Num::of_int(ctx.width() as i64)),
        _ => Err(EvalError::UnknownAttribute(attr.clone())),
    }
}

/// What the lower-case names of the pixel attributes resolve to.
pub proof fn lemma_attr_names()
    ensures
        attr_of(seq!['x']) == Some(Attr::X),
        attr_of(seq!['y']) == Some(Attr::Y),
        attr_of(seq!['r']) == Some(Attr::R),
        attr_of(seq!['g']) == Some(Attr::G),
        attr_of(seq!['b']) == Some(Attr::B),
        attr_of(seq!['a']) == Some(Attr::A),
{
    assert forall|a: char, b: char| a != b implies #[trigger] seq![a] != #[trigger] seq![b] by {
        if seq![a] == seq![b] {
            assert(seq![a][0] == seq![b][0]);
        }
    }
}

} // verus!
