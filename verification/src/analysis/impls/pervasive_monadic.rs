//! Primitives that act on each scalar of one argument.
use vstd::prelude::*;

use crate::analysis::error::ErrorKind;
use crate::float::{float_eq, int_to_float_bits, is_nan, is_zero, lemma_int_to_float_sign, sign_bit};
use crate::text::{
    is_lowercase, is_uppercase, lower_chars, lowercase, to_lowercase, to_uppercase, upper_chars,
    uppercase,
};
use crate::float::{float_is_infinite, float_to_whole, Rounding};
use crate::tir::{
    ainfo, clone_shape, clone_usizes, copy_string, fields_view, float_to_int_opt, lemma_fields_view,
    lemma_values_view, lemma_variants_view, nameable, shape_view, type_text, values_view,
    variants_view, vinfo, AInfo, ArrayInfo, ArrayValue, EnumInfo, MapInfo, ScalarInfo, StructInfo,
    VInfo, ValueInfo,
};

verus! {

/// Fields of a structure: names with their value types.
pub type Fields = Seq<(Seq<char>, VInfo)>;

/// Variants of an enum: names with their fields.
pub type Variants = Seq<(Seq<char>, Fields)>;

/// Whether `b` is `a` with each scalar replaced by a result of `f` on it.
pub open spec fn mono_mapped<F: Fn(ScalarInfo) -> Result<ScalarInfo, ErrorKind>>(f: F, a: VInfo, b: VInfo) -> bool
    decreases a,
{
    match (a, b) {
        (VInfo::Scalar(x), VInfo::Scalar(y)) => call_ensures(f, (x,), Ok(y)),
        (VInfo::Array(aa), VInfo::Array(bb)) => match (*aa, *bb) {
            (AInfo::Known(e, sh, d), AInfo::Known(e2, sh2, d2)) => sh2 == sh && mono_mapped(f, e, e2) && mapped_seq(f, d, d2),
            (AInfo::Ranked(e, sh), AInfo::Ranked(e2, sh2)) => sh2 == sh && mono_mapped(f, e, e2),
            (AInfo::Unranked(e, p, q), AInfo::Unranked(e2, p2, q2)) => p2 == p && q2 == q && mono_mapped(f, e, e2),
            _ => false,
        },
        (VInfo::Mapping(k, v), VInfo::Mapping(k2, v2)) => k2 == k && mono_mapped(f, *v, *v2),
        (VInfo::Struct(fs), VInfo::Struct(gs)) => mapped_fields(f, fs, gs),
        (VInfo::Enum(vs), VInfo::Enum(ws)) => mapped_variants(f, vs, ws),
        _ => false,
    }
}

pub open spec fn mapped_seq<F: Fn(ScalarInfo) -> Result<ScalarInfo, ErrorKind>>(f: F, d: Seq<VInfo>, d2: Seq<VInfo>) -> bool
    decreases d,
{
    d2.len() == d.len() && (d.len() == 0 || (mono_mapped(f, d[0], d2[0]) && mapped_seq(
        f,
        d.subrange(1, d.len() as int),
        d2.subrange(1, d2.len() as int),
    )))
}

pub open spec fn mapped_fields<F: Fn(ScalarInfo) -> Result<ScalarInfo, ErrorKind>>(f: F, fs: Fields, gs: Fields) -> bool
    decreases fs,
{
    gs.len() == fs.len() && (fs.len() == 0 || (gs[0].0 == fs[0].0 && mono_mapped(f, fs[0].1, gs[0].1) && mapped_fields(
        f,
        fs.subrange(1, fs.len() as int),
        gs.subrange(1, gs.len() as int),
    )))
}

pub open spec fn mapped_variants<F: Fn(ScalarInfo) -> Result<ScalarInfo, ErrorKind>>(f: F, vs: Variants, ws: Variants) -> bool
    decreases vs,
{
    ws.len() == vs.len() && (vs.len() == 0 || (ws[0].0 == vs[0].0 && mapped_fields(f, vs[0].1, ws[0].1) && mapped_variants(
        f,
        vs.subrange(1, vs.len() as int),
        ws.subrange(1, ws.len() as int),
    )))
}

/// Whether every result `f` may give on `s` is a success.
pub open spec fn scalar_ok<F: Fn(ScalarInfo) -> Result<ScalarInfo, ErrorKind>>(f: F, s: ScalarInfo) -> bool {
    forall|r: Result<ScalarInfo, ErrorKind>| call_ensures(f, (s,), r) ==> r is Ok
}

/// Whether every scalar of `a` satisfies `p`.
pub open spec fn all_scalars(a: VInfo, p: spec_fn(ScalarInfo) -> bool) -> bool
    decreases a,
{
    match a {
        VInfo::Scalar(x) => p(x),
        VInfo::Array(aa) => match *aa {
            AInfo::Known(e, _, d) => all_scalars(e, p) && all_seq(d, p),
            AInfo::Ranked(e, _) => all_scalars(e, p),
            AInfo::Unranked(e, _, _) => all_scalars(e, p),
        },
        VInfo::Mapping(_, v) => all_scalars(*v, p),
        VInfo::Struct(fs) => all_fields(fs, p),
        VInfo::Enum(vs) => all_variants(vs, p),
    }
}

pub open spec fn all_seq(d: Seq<VInfo>, p: spec_fn(ScalarInfo) -> bool) -> bool
    decreases d,
{
    d.len() == 0 || (all_scalars(d[0], p) && all_seq(d.subrange(1, d.len() as int), p))
}

pub open spec fn all_fields(fs: Fields, p: spec_fn(ScalarInfo) -> bool) -> bool
    decreases fs,
{
    fs.len() == 0 || (all_scalars(fs[0].1, p) && all_fields(fs.subrange(1, fs.len() as int), p))
}

pub open spec fn all_variants(vs: Variants, p: spec_fn(ScalarInfo) -> bool) -> bool
    decreases vs,
{
    vs.len() == 0 || (all_fields(vs[0].1, p) && all_variants(vs.subrange(1, vs.len() as int), p))
}

/// The scalars that `f` may be called on.
pub open spec fn pre_of<F: Fn(ScalarInfo) -> Result<ScalarInfo, ErrorKind>>(f: F) -> spec_fn(ScalarInfo) -> bool {
    |s: ScalarInfo| f.requires((s,))
}

/// The scalars that `f` surely succeeds on.
pub open spec fn ok_of<F: Fn(ScalarInfo) -> Result<ScalarInfo, ErrorKind>>(f: F) -> spec_fn(ScalarInfo) -> bool {
    |s: ScalarInfo| scalar_ok(f, s)
}

/// Whether `f` may be called on every scalar of `a`.
pub open spec fn mono_pre<F: Fn(ScalarInfo) -> Result<ScalarInfo, ErrorKind>>(f: F, a: VInfo) -> bool {
    all_scalars(a, pre_of(f))
}

/// Whether `f` succeeds on every scalar of `a`.
pub open spec fn mono_ok<F: Fn(ScalarInfo) -> Result<ScalarInfo, ErrorKind>>(f: F, a: VInfo) -> bool {
    all_scalars(a, ok_of(f))
}

/// Whether `f` may fail with `e` on some scalar of `a`.
pub open spec fn mono_fails<F: Fn(ScalarInfo) -> Result<ScalarInfo, ErrorKind>>(f: F, a: VInfo, e: ErrorKind) -> bool
    decreases a,
{
    match a {
        VInfo::Scalar(x) => call_ensures(f, (x,), Err(e)),
        VInfo::Array(aa) => match *aa {
            AInfo::Known(el, _, d) => mono_fails(f, el, e) || fails_seq(f, d, e),
            AInfo::Ranked(el, _) => mono_fails(f, el, e),
            AInfo::Unranked(el, _, _) => mono_fails(f, el, e),
        },
        VInfo::Mapping(_, v) => mono_fails(f, *v, e),
        VInfo::Struct(fs) => fails_fields(f, fs, e),
        VInfo::Enum(vs) => fails_variants(f, vs, e),
    }
}

pub open spec fn fails_seq<F: Fn(ScalarInfo) -> Result<ScalarInfo, ErrorKind>>(f: F, d: Seq<VInfo>, e: ErrorKind) -> bool
    decreases d,
{
    d.len() > 0 && (mono_fails(f, d[0], e) || fails_seq(f, d.subrange(1, d.len() as int), e))
}

pub open spec fn fails_fields<F: Fn(ScalarInfo) -> Result<ScalarInfo, ErrorKind>>(f: F, fs: Fields, e: ErrorKind) -> bool
    decreases fs,
{
    fs.len() > 0 && (mono_fails(f, fs[0].1, e) || fails_fields(f, fs.subrange(1, fs.len() as int), e))
}

pub open spec fn fails_variants<F: Fn(ScalarInfo) -> Result<ScalarInfo, ErrorKind>>(f: F, vs: Variants, e: ErrorKind) -> bool
    decreases vs,
{
    vs.len() > 0 && (fails_fields(f, vs[0].1, e) || fails_variants(f, vs.subrange(1, vs.len() as int), e))
}

proof fn lemma_seq<F: Fn(ScalarInfo) -> Result<ScalarInfo, ErrorKind>>(f: F, d: Seq<VInfo>, d2: Seq<VInfo>, e: ErrorKind, p: spec_fn(ScalarInfo) -> bool)
    ensures
        mapped_seq(f, d, d2) <==> (d2.len() == d.len() && forall|i: int| 0 <= i < d.len() ==> mono_mapped(f, #[trigger] d[i], d2[i])),
        all_seq(d, p) <==> forall|i: int| 0 <= i < d.len() ==> all_scalars(#[trigger] d[i], p),
        fails_seq(f, d, e) <==> exists|i: int| 0 <= i < d.len() && mono_fails(f, #[trigger] d[i], e),
    decreases d.len(),
{
    if d.len() > 0 {
        let t = d.subrange(1, d.len() as int);
        let t2 = d2.subrange(1, d2.len() as int);
        lemma_seq(f, t, t2, e, p);
        assert forall|i: int| 0 < i < d.len() implies #[trigger] d[i] == t[i - 1] by {}
        if d2.len() == d.len() {
            assert forall|i: int| 0 < i < d.len() implies #[trigger] d2[i] == t2[i - 1] by {}
            if forall|i: int| 0 <= i < d.len() ==> mono_mapped(f, #[trigger] d[i], d2[i]) {
                assert forall|i: int| 0 <= i < t.len() implies mono_mapped(f, #[trigger] t[i], t2[i]) by {
                    assert(d[i + 1] == t[i]);
                }
            }
        }
        if forall|i: int| 0 <= i < d.len() ==> all_scalars(#[trigger] d[i], p) {
            assert forall|i: int| 0 <= i < t.len() implies all_scalars(#[trigger] t[i], p) by {
                assert(d[i + 1] == t[i]);
            }
        }
        if fails_seq(f, t, e) {
            let i = choose|i: int| 0 <= i < t.len() && mono_fails(f, #[trigger] t[i], e);
            assert(d[i + 1] == t[i]);
        }
        if exists|i: int| 0 <= i < d.len() && mono_fails(f, #[trigger] d[i], e) {
            let i = choose|i: int| 0 <= i < d.len() && mono_fails(f, #[trigger] d[i], e);
            if i > 0 {
                assert(t[i - 1] == d[i]);
            }
        }
    }
}

proof fn lemma_fields<F: Fn(ScalarInfo) -> Result<ScalarInfo, ErrorKind>>(f: F, fs: Fields, gs: Fields, e: ErrorKind, p: spec_fn(ScalarInfo) -> bool)
    ensures
        mapped_fields(f, fs, gs) <==> (gs.len() == fs.len() && forall|i: int|
            0 <= i < fs.len() ==> (#[trigger] gs[i]).0 == fs[i].0 && mono_mapped(f, fs[i].1, gs[i].1)),
        all_fields(fs, p) <==> forall|i: int| 0 <= i < fs.len() ==> all_scalars((#[trigger] fs[i]).1, p),
        fails_fields(f, fs, e) <==> exists|i: int| 0 <= i < fs.len() && mono_fails(f, (#[trigger] fs[i]).1, e),
    decreases fs.len(),
{
    if fs.len() > 0 {
        let t = fs.subrange(1, fs.len() as int);
        let t2 = gs.subrange(1, gs.len() as int);
        lemma_fields(f, t, t2, e, p);
        assert forall|i: int| 0 < i < fs.len() implies #[trigger] fs[i] == t[i - 1] by {}
        if gs.len() == fs.len() {
            assert forall|i: int| 0 < i < fs.len() implies #[trigger] gs[i] == t2[i - 1] by {}
            if forall|i: int| 0 <= i < fs.len() ==> (#[trigger] gs[i]).0 == fs[i].0 && mono_mapped(f, fs[i].1, gs[i].1) {
                assert forall|i: int| 0 <= i < t.len() implies (#[trigger] t2[i]).0 == t[i].0 && mono_mapped(f, t[i].1, t2[i].1) by {
                    assert(gs[i + 1] == t2[i]);
                }
            }
        }
        if forall|i: int| 0 <= i < fs.len() ==> all_scalars((#[trigger] fs[i]).1, p) {
            assert forall|i: int| 0 <= i < t.len() implies all_scalars((#[trigger] t[i]).1, p) by {
                assert(fs[i + 1] == t[i]);
            }
        }
        if fails_fields(f, t, e) {
            let i = choose|i: int| 0 <= i < t.len() && mono_fails(f, (#[trigger] t[i]).1, e);
            assert(fs[i + 1] == t[i]);
        }
        if exists|i: int| 0 <= i < fs.len() && mono_fails(f, (#[trigger] fs[i]).1, e) {
            let i = choose|i: int| 0 <= i < fs.len() && mono_fails(f, (#[trigger] fs[i]).1, e);
            if i > 0 {
                assert(t[i - 1] == fs[i]);
            }
        }
    }
}

proof fn lemma_variants<F: Fn(ScalarInfo) -> Result<ScalarInfo, ErrorKind>>(f: F, vs: Variants, ws: Variants, e: ErrorKind, p: spec_fn(ScalarInfo) -> bool)
    ensures
        mapped_variants(f, vs, ws) <==> (ws.len() == vs.len() && forall|i: int|
            0 <= i < vs.len() ==> (#[trigger] ws[i]).0 == vs[i].0 && mapped_fields(f, vs[i].1, ws[i].1)),
        all_variants(vs, p) <==> forall|i: int| 0 <= i < vs.len() ==> all_fields((#[trigger] vs[i]).1, p),
        fails_variants(f, vs, e) <==> exists|i: int| 0 <= i < vs.len() && fails_fields(f, (#[trigger] vs[i]).1, e),
    decreases vs.len(),
{
    if vs.len() > 0 {
        let t = vs.subrange(1, vs.len() as int);
        let t2 = ws.subrange(1, ws.len() as int);
        lemma_variants(f, t, t2, e, p);
        assert forall|i: int| 0 < i < vs.len() implies #[trigger] vs[i] == t[i - 1] by {}
        if ws.len() == vs.len() {
            assert forall|i: int| 0 < i < vs.len() implies #[trigger] ws[i] == t2[i - 1] by {}
            if forall|i: int| 0 <= i < vs.len() ==> (#[trigger] ws[i]).0 == vs[i].0 && mapped_fields(f, vs[i].1, ws[i].1) {
                assert forall|i: int| 0 <= i < t.len() implies (#[trigger] t2[i]).0 == t[i].0 && mapped_fields(f, t[i].1, t2[i].1) by {
                    assert(ws[i + 1] == t2[i]);
                }
            }
        }
        if forall|i: int| 0 <= i < vs.len() ==> all_fields((#[trigger] vs[i]).1, p) {
            assert forall|i: int| 0 <= i < t.len() implies all_fields((#[trigger] t[i]).1, p) by {
                assert(vs[i + 1] == t[i]);
            }
        }
        if fails_variants(f, t, e) {
            let i = choose|i: int| 0 <= i < t.len() && fails_fields(f, (#[trigger] t[i]).1, e);
            assert(vs[i + 1] == t[i]);
        }
        if exists|i: int| 0 <= i < vs.len() && fails_fields(f, (#[trigger] vs[i]).1, e) {
            let i = choose|i: int| 0 <= i < vs.len() && fails_fields(f, (#[trigger] vs[i]).1, e);
            if i > 0 {
                assert(t[i - 1] == vs[i]);
            }
        }
    }
}


/// `pervasive_monadic` of each value of a list.
fn mono_data<F: Fn(ScalarInfo) -> Result<ScalarInfo, ErrorKind>>(data: &Vec<ValueInfo>, scalar_func: &F) -> (r: Result<
    Vec<ValueInfo>,
    ErrorKind,
>)
    requires
        all_seq(values_view(data@), pre_of(*scalar_func)),
    ensures
        r matches Ok(v) ==> mapped_seq(*scalar_func, values_view(data@), values_view(v@)),
        r matches Err(e) ==> fails_seq(*scalar_func, values_view(data@), e),
        all_seq(values_view(data@), ok_of(*scalar_func)) ==> r is Ok,
    decreases data,
{
    let ghost d = values_view(data@);
    proof {
        lemma_values_view(data@);
        lemma_seq(*scalar_func, d, d, ErrorKind::Unranked(""), pre_of(*scalar_func));
        lemma_seq(*scalar_func, d, d, ErrorKind::Unranked(""), ok_of(*scalar_func));
    }
    let mut out: Vec<ValueInfo> = Vec::new();
    let mut i: usize = 0;
    while i < data.len()
        invariant
            i <= data.len(),
            out.len() == i,
            d == values_view(data@),
            d.len() == data.len(),
            forall|j: int| 0 <= j < data.len() ==> #[trigger] d[j] == vinfo(data@[j]),
            forall|j: int| 0 <= j < d.len() ==> all_scalars(#[trigger] d[j], pre_of(*scalar_func)),
            forall|j: int| 0 <= j < i ==> mono_mapped(*scalar_func, vinfo(#[trigger] data@[j]), vinfo(out@[j])),
        decreases data.len() - i,
    {
        assert(d[i as int] == vinfo(data@[i as int]));
        match pervasive_monadic(&data[i], scalar_func) {
            Ok(v) => {
                out.push(v);
            },
            Err(e) => {
                proof {
                    lemma_seq(*scalar_func, d, d, e, ok_of(*scalar_func));
                    assert(mono_fails(*scalar_func, d[i as int], e));
                }
                return Err(e);
            },
        }
        i = i + 1;
    }
    proof {
        lemma_values_view(out@);
        lemma_seq(*scalar_func, d, values_view(out@), ErrorKind::Unranked(""), ok_of(*scalar_func));
        assert forall|j: int| 0 <= j < d.len() implies mono_mapped(*scalar_func, #[trigger] d[j], values_view(out@)[j]) by {
            assert(vinfo(data@[j]) == d[j]);
        }
    }
    Ok(out)
}

/// `pervasive_monadic` of each field of a structure, names kept.
fn mono_fields<F: Fn(ScalarInfo) -> Result<ScalarInfo, ErrorKind>>(fields: &Vec<(String, ValueInfo)>, scalar_func: &F) -> (r: Result<
    Vec<(String, ValueInfo)>,
    ErrorKind,
>)
    requires
        all_fields(fields_view(fields@), pre_of(*scalar_func)),
    ensures
        r matches Ok(v) ==> mapped_fields(*scalar_func, fields_view(fields@), fields_view(v@)),
        r matches Err(e) ==> fails_fields(*scalar_func, fields_view(fields@), e),
        all_fields(fields_view(fields@), ok_of(*scalar_func)) ==> r is Ok,
    decreases fields,
{
    let ghost fs = fields_view(fields@);
    proof {
        lemma_fields_view(fields@);
        lemma_fields(*scalar_func, fs, fs, ErrorKind::Unranked(""), pre_of(*scalar_func));
        lemma_fields(*scalar_func, fs, fs, ErrorKind::Unranked(""), ok_of(*scalar_func));
    }
    let mut out: Vec<(String, ValueInfo)> = Vec::new();
    let mut i: usize = 0;
    while i < fields.len()
        invariant
            i <= fields.len(),
            out.len() == i,
            fs == fields_view(fields@),
            fs.len() == fields.len(),
            forall|j: int| 0 <= j < fields.len() ==> #[trigger] fs[j] == (fields@[j].0@, vinfo(fields@[j].1)),
            forall|j: int| 0 <= j < fs.len() ==> all_scalars((#[trigger] fs[j]).1, pre_of(*scalar_func)),
            forall|j: int| 0 <= j < i ==> (#[trigger] out@[j]).0@ == fields@[j].0@ && mono_mapped(
                *scalar_func,
                vinfo(fields@[j].1),
                vinfo(out@[j].1),
            ),
        decreases fields.len() - i,
    {
        assert(fs[i as int] == (fields@[i as int].0@, vinfo(fields@[i as int].1)));
        match pervasive_monadic(&fields[i].1, scalar_func) {
            Ok(v) => {
                let name = copy_string(&fields[i].0);
                out.push((name, v));
            },
            Err(e) => {
                proof {
                    lemma_fields(*scalar_func, fs, fs, e, ok_of(*scalar_func));
                    assert(mono_fails(*scalar_func, fs[i as int].1, e));
                }
                return Err(e);
            },
        }
        i = i + 1;
    }
    proof {
        lemma_fields_view(out@);
        lemma_fields(*scalar_func, fs, fields_view(out@), ErrorKind::Unranked(""), ok_of(*scalar_func));
        assert forall|j: int| 0 <= j < fs.len() implies (#[trigger] fields_view(out@)[j]).0 == fs[j].0 && mono_mapped(
            *scalar_func,
            fs[j].1,
            fields_view(out@)[j].1,
        ) by {
            assert(fs[j] == (fields@[j].0@, vinfo(fields@[j].1)));
        }
    }
    Ok(out)
}

/// `pervasive_monadic` of each field of a structure.
fn mono_struct<F: Fn(ScalarInfo) -> Result<ScalarInfo, ErrorKind>>(st: &StructInfo, scalar_func: &F) -> (r: Result<
    Vec<(String, ValueInfo)>,
    ErrorKind,
>)
    requires
        all_fields(fields_view(st.fields@), pre_of(*scalar_func)),
    ensures
        r matches Ok(v) ==> mapped_fields(*scalar_func, fields_view(st.fields@), fields_view(v@)),
        r matches Err(e) ==> fails_fields(*scalar_func, fields_view(st.fields@), e),
        all_fields(fields_view(st.fields@), ok_of(*scalar_func)) ==> r is Ok,
    decreases st,
{
    mono_fields(&st.fields, scalar_func)
}

/// `pervasive_monadic` of each field of each variant of an enum.
fn mono_enum<F: Fn(ScalarInfo) -> Result<ScalarInfo, ErrorKind>>(en: &EnumInfo, scalar_func: &F) -> (r: Result<
    Vec<(String, StructInfo)>,
    ErrorKind,
>)
    requires
        all_variants(variants_view(en.variants@), pre_of(*scalar_func)),
    ensures
        r matches Ok(v) ==> mapped_variants(*scalar_func, variants_view(en.variants@), variants_view(v@)),
        r matches Err(e) ==> fails_variants(*scalar_func, variants_view(en.variants@), e),
        all_variants(variants_view(en.variants@), ok_of(*scalar_func)) ==> r is Ok,
    decreases en,
{
    let ghost vs = variants_view(en.variants@);
    proof {
        lemma_variants_view(en.variants@);
        lemma_variants(*scalar_func, vs, vs, ErrorKind::Unranked(""), pre_of(*scalar_func));
        lemma_variants(*scalar_func, vs, vs, ErrorKind::Unranked(""), ok_of(*scalar_func));
    }
    let mut out: Vec<(String, StructInfo)> = Vec::new();
    let mut i: usize = 0;
    while i < en.variants.len()
        invariant
            i <= en.variants.len(),
            out.len() == i,
            vs == variants_view(en.variants@),
            vs.len() == en.variants.len(),
            forall|j: int| 0 <= j < en.variants.len() ==> #[trigger] vs[j] == (en.variants@[j].0@, fields_view(en.variants@[j].1.fields@)),
            forall|j: int| 0 <= j < vs.len() ==> all_fields((#[trigger] vs[j]).1, pre_of(*scalar_func)),
            forall|j: int| 0 <= j < i ==> (#[trigger] out@[j]).0@ == en.variants@[j].0@ && mapped_fields(
                *scalar_func,
                fields_view(en.variants@[j].1.fields@),
                fields_view(out@[j].1.fields@),
            ),
        decreases en.variants.len() - i,
    {
        assert(vs[i as int] == (en.variants@[i as int].0@, fields_view(en.variants@[i as int].1.fields@)));
        match mono_struct(&en.variants[i].1, scalar_func) {
            Ok(f) => {
                let name = copy_string(&en.variants[i].0);
                out.push((name, StructInfo { fields: f }));
            },
            Err(e) => {
                proof {
                    lemma_variants(*scalar_func, vs, vs, e, ok_of(*scalar_func));
                    assert(fails_fields(*scalar_func, vs[i as int].1, e));
                }
                return Err(e);
            },
        }
        i = i + 1;
    }
    proof {
        lemma_variants_view(out@);
        lemma_variants(*scalar_func, vs, variants_view(out@), ErrorKind::Unranked(""), ok_of(*scalar_func));
        assert forall|j: int| 0 <= j < vs.len() implies (#[trigger] variants_view(out@)[j]).0 == vs[j].0 && mapped_fields(
            *scalar_func,
            vs[j].1,
            variants_view(out@)[j].1,
        ) by {
            assert(vs[j] == (en.variants@[j].0@, fields_view(en.variants@[j].1.fields@)));
        }
    }
    Ok(out)
}

/// Applies `scalar_func` to every scalar of a value, keeping its structure:
/// the element type and each known element of an array, the value type of a
/// map, and each field of a structure or variant, in that order; the first
/// failure is returned.
pub fn pervasive_monadic<F: Fn(ScalarInfo) -> Result<ScalarInfo, ErrorKind>>(input_info: &ValueInfo, scalar_func: &F) -> (r: Result<
    ValueInfo,
    ErrorKind,
>)
    requires
        mono_pre(*scalar_func, vinfo(*input_info)),
    ensures
        r matches Ok(v) ==> mono_mapped(*scalar_func, vinfo(*input_info), vinfo(v)),
        r matches Err(e) ==> mono_fails(*scalar_func, vinfo(*input_info), e),
        mono_ok(*scalar_func, vinfo(*input_info)) ==> r is Ok,
    decreases input_info,
{
    match input_info {
        ValueInfo::Scalar(s) => {
            let y = scalar_func(*s);
            match y {
                Ok(v) => Ok(ValueInfo::Scalar(v)),
                Err(e) => Err(e),
            }
        },
        ValueInfo::Array(a) => {
            let ghost av = ainfo(**a);
            assert(vinfo(*input_info) == VInfo::Array(Box::new(av)));
            match &**a {
                ArrayInfo::Known { element_type, value } => {
                    assert(av == AInfo::Known(vinfo(*element_type), value.shape@, values_view(value.data@)));
                    let e = match pervasive_monadic(element_type, scalar_func) {
                        Ok(e) => e,
                        Err(err) => return Err(err),
                    };
                    let data = match mono_data(&value.data, scalar_func) {
                        Ok(d) => d,
                        Err(err) => return Err(err),
                    };
                    let inner = ArrayInfo::Known { element_type: e, value: ArrayValue { shape: clone_usizes(&value.shape), data } };
                    assert(ainfo(inner) == AInfo::Known(vinfo(e), value.shape@, values_view(data@)));
                    let res = ValueInfo::Array(Box::new(inner));
                    assert(vinfo(res) == VInfo::Array(Box::new(ainfo(inner))));
                    Ok(res)
                },
                ArrayInfo::Ranked { element_type, shape } => {
                    assert(av == AInfo::Ranked(vinfo(*element_type), shape_view(shape@)));
                    let e = match pervasive_monadic(element_type, scalar_func) {
                        Ok(e) => e,
                        Err(err) => return Err(err),
                    };
                    let inner = ArrayInfo::Ranked { element_type: e, shape: clone_shape(shape) };
                    assert(ainfo(inner) == AInfo::Ranked(vinfo(e), shape_view(shape@)));
                    let res = ValueInfo::Array(Box::new(inner));
                    assert(vinfo(res) == VInfo::Array(Box::new(ainfo(inner))));
                    Ok(res)
                },
                ArrayInfo::Unranked { element_type, shape_prefix, shape_suffix } => {
                    assert(av == AInfo::Unranked(vinfo(*element_type), shape_view(shape_prefix@), shape_view(shape_suffix@)));
                    let e = match pervasive_monadic(element_type, scalar_func) {
                        Ok(e) => e,
                        Err(err) => return Err(err),
                    };
                    let inner = ArrayInfo::Unranked {
                        element_type: e,
                        shape_prefix: clone_shape(shape_prefix),
                        shape_suffix: clone_shape(shape_suffix),
                    };
                    assert(ainfo(inner) == AInfo::Unranked(vinfo(e), shape_view(shape_prefix@), shape_view(shape_suffix@)));
                    let res = ValueInfo::Array(Box::new(inner));
                    assert(vinfo(res) == VInfo::Array(Box::new(ainfo(inner))));
                    Ok(res)
                },
            }
        },
        ValueInfo::Mapping(m) => {
            let v = match pervasive_monadic(&m.value_type, scalar_func) {
                Ok(v) => v,
                Err(err) => return Err(err),
            };
            Ok(ValueInfo::Mapping(Box::new(MapInfo { key_type: m.key_type.duplicate(), value_type: v })))
        },
        ValueInfo::Struct(st) => match mono_struct(st, scalar_func) {
            Ok(fields) => Ok(ValueInfo::Struct(StructInfo { fields })),
            Err(err) => Err(err),
        },
        ValueInfo::Enum(en) => match mono_enum(en, scalar_func) {
            Ok(variants) => Ok(ValueInfo::Enum(EnumInfo { variants })),
            Err(err) => Err(err),
        },
    }
}


/// Every scalar of `a` replaced by its image under `g`.
pub open spec fn vmap(a: VInfo, g: spec_fn(ScalarInfo) -> ScalarInfo) -> VInfo
    decreases a,
{
    match a {
        VInfo::Scalar(x) => VInfo::Scalar(g(x)),
        VInfo::Array(aa) => VInfo::Array(Box::new(amap(*aa, g))),
        VInfo::Mapping(k, v) => VInfo::Mapping(k, Box::new(vmap(*v, g))),
        VInfo::Struct(fs) => VInfo::Struct(map_fields(fs, g)),
        VInfo::Enum(vs) => VInfo::Enum(map_variants(vs, g)),
    }
}

pub open spec fn amap(a: AInfo, g: spec_fn(ScalarInfo) -> ScalarInfo) -> AInfo
    decreases a,
{
    match a {
        AInfo::Known(e, sh, d) => AInfo::Known(vmap(e, g), sh, map_seq(d, g)),
        AInfo::Ranked(e, sh) => AInfo::Ranked(vmap(e, g), sh),
        AInfo::Unranked(e, p, q) => AInfo::Unranked(vmap(e, g), p, q),
    }
}

pub open spec fn map_seq(d: Seq<VInfo>, g: spec_fn(ScalarInfo) -> ScalarInfo) -> Seq<VInfo>
    decreases d,
{
    if d.len() == 0 {
        seq![]
    } else {
        seq![vmap(d[0], g)] + map_seq(d.subrange(1, d.len() as int), g)
    }
}

pub open spec fn map_fields(fs: Fields, g: spec_fn(ScalarInfo) -> ScalarInfo) -> Fields
    decreases fs,
{
    if fs.len() == 0 {
        seq![]
    } else {
        seq![(fs[0].0, vmap(fs[0].1, g))] + map_fields(fs.subrange(1, fs.len() as int), g)
    }
}

pub open spec fn map_variants(vs: Variants, g: spec_fn(ScalarInfo) -> ScalarInfo) -> Variants
    decreases vs,
{
    if vs.len() == 0 {
        seq![]
    } else {
        seq![(vs[0].0, map_fields(vs[0].1, g))] + map_variants(vs.subrange(1, vs.len() as int), g)
    }
}

/// With a scalar function that gives `g` of its argument, the mapped value is
/// `vmap` of it.
proof fn lemma_mapped_vmap<F: Fn(ScalarInfo) -> Result<ScalarInfo, ErrorKind>>(f: F, g: spec_fn(ScalarInfo) -> ScalarInfo, a: VInfo, b: VInfo)
    requires
        forall|x: ScalarInfo, r: Result<ScalarInfo, ErrorKind>| call_ensures(f, (x,), r) ==> r == Ok::<ScalarInfo, ErrorKind>(g(x)),
    ensures
        mono_mapped(f, a, b) ==> b == vmap(a, g),
    decreases a,
{
    if mono_mapped(f, a, b) {
        match (a, b) {
            (VInfo::Scalar(x), VInfo::Scalar(y)) => {
                assert(call_ensures(f, (x,), Ok::<ScalarInfo, ErrorKind>(y)));
            },
            (VInfo::Array(aa), VInfo::Array(bb)) => match (*aa, *bb) {
                (AInfo::Known(e, sh, d), AInfo::Known(e2, sh2, d2)) => {
                    lemma_mapped_vmap(f, g, e, e2);
                    lemma_mapped_vmap_seq(f, g, d, d2);
                    assert(*bb == amap(*aa, g));
                },
                (AInfo::Ranked(e, sh), AInfo::Ranked(e2, sh2)) => {
                    lemma_mapped_vmap(f, g, e, e2);
                    assert(*bb == amap(*aa, g));
                },
                (AInfo::Unranked(e, p, q), AInfo::Unranked(e2, p2, q2)) => {
                    lemma_mapped_vmap(f, g, e, e2);
                    assert(*bb == amap(*aa, g));
                },
                _ => {},
            },
            (VInfo::Mapping(k, v), VInfo::Mapping(k2, v2)) => {
                lemma_mapped_vmap(f, g, *v, *v2);
            },
            (VInfo::Struct(fs), VInfo::Struct(gs)) => {
                lemma_mapped_vmap_fields(f, g, fs, gs);
            },
            (VInfo::Enum(vs), VInfo::Enum(ws)) => {
                lemma_mapped_vmap_variants(f, g, vs, ws);
            },
            _ => {},
        }
    }
}

proof fn lemma_mapped_vmap_seq<F: Fn(ScalarInfo) -> Result<ScalarInfo, ErrorKind>>(f: F, g: spec_fn(ScalarInfo) -> ScalarInfo, d: Seq<VInfo>, d2: Seq<VInfo>)
    requires
        forall|x: ScalarInfo, r: Result<ScalarInfo, ErrorKind>| call_ensures(f, (x,), r) ==> r == Ok::<ScalarInfo, ErrorKind>(g(x)),
    ensures
        mapped_seq(f, d, d2) ==> d2 == map_seq(d, g),
    decreases d,
{
    if mapped_seq(f, d, d2) && d.len() > 0 {
        lemma_mapped_vmap(f, g, d[0], d2[0]);
        lemma_mapped_vmap_seq(f, g, d.subrange(1, d.len() as int), d2.subrange(1, d2.len() as int));
        assert(d2 =~= seq![d2[0]] + d2.subrange(1, d2.len() as int));
    } else if mapped_seq(f, d, d2) {
        assert(d2 =~= Seq::<VInfo>::empty());
    }
}

proof fn lemma_mapped_vmap_fields<F: Fn(ScalarInfo) -> Result<ScalarInfo, ErrorKind>>(f: F, g: spec_fn(ScalarInfo) -> ScalarInfo, fs: Fields, gs: Fields)
    requires
        forall|x: ScalarInfo, r: Result<ScalarInfo, ErrorKind>| call_ensures(f, (x,), r) ==> r == Ok::<ScalarInfo, ErrorKind>(g(x)),
    ensures
        mapped_fields(f, fs, gs) ==> gs == map_fields(fs, g),
    decreases fs,
{
    if mapped_fields(f, fs, gs) && fs.len() > 0 {
        lemma_mapped_vmap(f, g, fs[0].1, gs[0].1);
        lemma_mapped_vmap_fields(f, g, fs.subrange(1, fs.len() as int), gs.subrange(1, gs.len() as int));
        assert(gs =~= seq![gs[0]] + gs.subrange(1, gs.len() as int));
    } else if mapped_fields(f, fs, gs) {
        assert(gs =~= Seq::<(Seq<char>, VInfo)>::empty());
    }
}

proof fn lemma_mapped_vmap_variants<F: Fn(ScalarInfo) -> Result<ScalarInfo, ErrorKind>>(f: F, g: spec_fn(ScalarInfo) -> ScalarInfo, vs: Variants, ws: Variants)
    requires
        forall|x: ScalarInfo, r: Result<ScalarInfo, ErrorKind>| call_ensures(f, (x,), r) ==> r == Ok::<ScalarInfo, ErrorKind>(g(x)),
    ensures
        mapped_variants(f, vs, ws) ==> ws == map_variants(vs, g),
    decreases vs,
{
    if mapped_variants(f, vs, ws) && vs.len() > 0 {
        lemma_mapped_vmap_fields(f, g, vs[0].1, ws[0].1);
        lemma_mapped_vmap_variants(f, g, vs.subrange(1, vs.len() as int), ws.subrange(1, ws.len() as int));
        assert(ws =~= seq![ws[0]] + ws.subrange(1, ws.len() as int));
    } else if mapped_variants(f, vs, ws) {
        assert(ws =~= Seq::<(Seq<char>, Fields)>::empty());
    }
}

/// A weaker property holds of every scalar where a stronger one does.
proof fn lemma_all_weaken(a: VInfo, p: spec_fn(ScalarInfo) -> bool, q: spec_fn(ScalarInfo) -> bool)
    requires
        forall|s: ScalarInfo| #[trigger] p(s) ==> q(s),
    ensures
        all_scalars(a, p) ==> all_scalars(a, q),
    decreases a,
{
    match a {
        VInfo::Array(aa) => match *aa {
            AInfo::Known(e, _, d) => {
                lemma_all_weaken(e, p, q);
                lemma_all_weaken_seq(d, p, q);
            },
            AInfo::Ranked(e, _) => lemma_all_weaken(e, p, q),
            AInfo::Unranked(e, _, _) => lemma_all_weaken(e, p, q),
        },
        VInfo::Mapping(_, v) => lemma_all_weaken(*v, p, q),
        VInfo::Struct(fs) => lemma_all_weaken_fields(fs, p, q),
        VInfo::Enum(vs) => lemma_all_weaken_variants(vs, p, q),
        _ => {},
    }
}

proof fn lemma_all_weaken_seq(d: Seq<VInfo>, p: spec_fn(ScalarInfo) -> bool, q: spec_fn(ScalarInfo) -> bool)
    requires
        forall|s: ScalarInfo| #[trigger] p(s) ==> q(s),
    ensures
        all_seq(d, p) ==> all_seq(d, q),
    decreases d,
{
    if d.len() > 0 {
        lemma_all_weaken(d[0], p, q);
        lemma_all_weaken_seq(d.subrange(1, d.len() as int), p, q);
    }
}

proof fn lemma_all_weaken_fields(fs: Fields, p: spec_fn(ScalarInfo) -> bool, q: spec_fn(ScalarInfo) -> bool)
    requires
        forall|s: ScalarInfo| #[trigger] p(s) ==> q(s),
    ensures
        all_fields(fs, p) ==> all_fields(fs, q),
    decreases fs,
{
    if fs.len() > 0 {
        lemma_all_weaken(fs[0].1, p, q);
        lemma_all_weaken_fields(fs.subrange(1, fs.len() as int), p, q);
    }
}

proof fn lemma_all_weaken_variants(vs: Variants, p: spec_fn(ScalarInfo) -> bool, q: spec_fn(ScalarInfo) -> bool)
    requires
        forall|s: ScalarInfo| #[trigger] p(s) ==> q(s),
    ensures
        all_variants(vs, p) ==> all_variants(vs, q),
    decreases vs,
{
    if vs.len() > 0 {
        lemma_all_weaken_fields(vs[0].1, p, q);
        lemma_all_weaken_variants(vs.subrange(1, vs.len() as int), p, q);
    }
}

/// Every scalar satisfies a property that holds of all scalars.
proof fn lemma_all_true(a: VInfo, q: spec_fn(ScalarInfo) -> bool)
    requires
        forall|s: ScalarInfo| #[trigger] q(s),
    ensures
        all_scalars(a, q),
    decreases a,
{
    match a {
        VInfo::Array(aa) => match *aa {
            AInfo::Known(e, _, d) => {
                lemma_all_true(e, q);
                lemma_all_true_seq(d, q);
            },
            AInfo::Ranked(e, _) => lemma_all_true(e, q),
            AInfo::Unranked(e, _, _) => lemma_all_true(e, q),
        },
        VInfo::Mapping(_, v) => lemma_all_true(*v, q),
        VInfo::Struct(fs) => lemma_all_true_fields(fs, q),
        VInfo::Enum(vs) => lemma_all_true_variants(vs, q),
        _ => {},
    }
}

proof fn lemma_all_true_seq(d: Seq<VInfo>, q: spec_fn(ScalarInfo) -> bool)
    requires
        forall|s: ScalarInfo| #[trigger] q(s),
    ensures
        all_seq(d, q),
    decreases d,
{
    if d.len() > 0 {
        lemma_all_true(d[0], q);
        lemma_all_true_seq(d.subrange(1, d.len() as int), q);
    }
}

proof fn lemma_all_true_fields(fs: Fields, q: spec_fn(ScalarInfo) -> bool)
    requires
        forall|s: ScalarInfo| #[trigger] q(s),
    ensures
        all_fields(fs, q),
    decreases fs,
{
    if fs.len() > 0 {
        lemma_all_true(fs[0].1, q);
        lemma_all_true_fields(fs.subrange(1, fs.len() as int), q);
    }
}

proof fn lemma_all_true_variants(vs: Variants, q: spec_fn(ScalarInfo) -> bool)
    requires
        forall|s: ScalarInfo| #[trigger] q(s),
    ensures
        all_variants(vs, q),
    decreases vs,
{
    if vs.len() > 0 {
        lemma_all_true_fields(vs[0].1, q);
        lemma_all_true_variants(vs.subrange(1, vs.len() as int), q);
    }
}


/// The sign of a double: 0 for zeros and NaN, else -1 or 1.
pub open spec fn float_sign(b: u64) -> i64 {
    if is_nan(b) || is_zero(b) {
        0
    } else if sign_bit(b) == 1 {
        -1i64
    } else {
        1i64
    }
}

pub open spec fn int_sign(i: i64) -> i64 {
    if i > 0 {
        1i64
    } else if i < 0 {
        -1i64
    } else {
        0i64
    }
}

/// The sign of a character: 1 for uppercase, -1 for lowercase, else 0.
pub open spec fn char_sign(c: char) -> i64 {
    ((if uppercase(c) { 1i64 } else { 0i64 }) - (if lowercase(c) { 1i64 } else { 0i64 })) as i64
}

/// The sign of a scalar; booleans are their own sign.
pub open spec fn sign_of(s: ScalarInfo) -> ScalarInfo {
    match s {
        ScalarInfo::Bool(_) => s,
        ScalarInfo::Int(i, _) => ScalarInfo::Int(
            match i {
                Some(x) => Some(int_sign(x)),
                None => None,
            },
            false,
        ),
        ScalarInfo::Float(f) => ScalarInfo::Int(
            match f {
                Some(x) => Some(float_sign(x)),
                None => None,
            },
            false,
        ),
        ScalarInfo::Char(c) => ScalarInfo::Int(
            match c {
                Some(x) => Some((char_sign(x)) as i64),
                None => None,
            },
            false,
        ),
    }
}

/// A double with its sign bit flipped.
pub open spec fn flip_sign(b: u64) -> u64 {
    if b >= 0x8000_0000_0000_0000u64 {
        (b - 0x8000_0000_0000_0000u64) as u64
    } else {
        (b + 0x8000_0000_0000_0000u64) as u64
    }
}

/// A double with its sign bit cleared.
pub open spec fn clear_sign(b: u64) -> u64 {
    if b >= 0x8000_0000_0000_0000u64 {
        (b - 0x8000_0000_0000_0000u64) as u64
    } else {
        b
    }
}

/// A character with its case swapped, where the other case is one
/// character.
pub open spec fn swap_case(c: char) -> char {
    if uppercase(c) && lower_chars(c).len() == 1 {
        lower_chars(c)[0]
    } else if lowercase(c) && upper_chars(c).len() == 1 {
        upper_chars(c)[0]
    } else {
        c
    }
}

/// A character in uppercase, where that is one character.
pub open spec fn upper_case(c: char) -> char {
    if upper_chars(c).len() == 1 {
        upper_chars(c)[0]
    } else {
        c
    }
}

/// Whether a scalar is the integer `i64::MIN`, which has no negation.
pub open spec fn is_int_min(s: ScalarInfo) -> bool {
    s matches ScalarInfo::Int(Some(x), _) && x == i64::MIN
}

pub open spec fn not_int_min() -> spec_fn(ScalarInfo) -> bool {
    |s: ScalarInfo| !is_int_min(s)
}

/// The negation of a scalar: booleans become 0 or -1, and characters swap
/// case.
pub open spec fn negate_of(s: ScalarInfo) -> ScalarInfo {
    match s {
        ScalarInfo::Bool(b) => ScalarInfo::Int(
            match b {
                Some(x) => Some(if x { -1i64 } else { 0i64 }),
                None => None,
            },
            false,
        ),
        ScalarInfo::Int(i, inf) => ScalarInfo::Int(
            match i {
                Some(x) => Some((-x) as i64),
                None => None,
            },
            inf,
        ),
        ScalarInfo::Float(f) => ScalarInfo::Float(
            match f {
                Some(x) => Some(flip_sign(x)),
                None => None,
            },
        ),
        ScalarInfo::Char(c) => ScalarInfo::Char(
            match c {
                Some(x) => Some(swap_case(x)),
                None => None,
            },
        ),
    }
}

/// The absolute value of a scalar: booleans are their own, and characters
/// become uppercase.
pub open spec fn abs_of(s: ScalarInfo) -> ScalarInfo {
    match s {
        ScalarInfo::Bool(_) => s,
        ScalarInfo::Int(i, inf) => ScalarInfo::Int(
            match i {
                Some(x) => Some(if x < 0 { (-x) as i64 } else { x }),
                None => None,
            },
            inf,
        ),
        ScalarInfo::Float(f) => ScalarInfo::Float(
            match f {
                Some(x) => Some(clear_sign(x)),
                None => None,
            },
        ),
        ScalarInfo::Char(c) => ScalarInfo::Char(
            match c {
                Some(x) => Some(upper_case(x)),
                None => None,
            },
        ),
    }
}

pub open spec fn sign_map() -> spec_fn(ScalarInfo) -> ScalarInfo {
    |s: ScalarInfo| sign_of(s)
}

pub open spec fn negate_map() -> spec_fn(ScalarInfo) -> ScalarInfo {
    |s: ScalarInfo| negate_of(s)
}

pub open spec fn abs_map() -> spec_fn(ScalarInfo) -> ScalarInfo {
    |s: ScalarInfo| abs_of(s)
}

fn sign_scalar(s: ScalarInfo) -> (r: ScalarInfo)
    ensures
        r == sign_of(s),
{
    match s {
        ScalarInfo::Bool(_) => s,
        ScalarInfo::Int(i, _) => ScalarInfo::Int(
            match i {
                Some(x) => Some(if x > 0 { 1 } else if x < 0 { -1 } else { 0 }),
                None => None,
            },
            false,
        ),
        ScalarInfo::Float(f) => ScalarInfo::Int(
            match f {
                Some(x) => {
                    let e = (x / 0x10_0000_0000_0000u64) % 2048;
                    let m = x % 0x10_0000_0000_0000u64;
                    if (e == 2047 && m != 0) || (e == 0 && m == 0) {
                        Some(0)
                    } else if x >= 0x8000_0000_0000_0000u64 {
                        assert(sign_bit(x) == 1);
                        Some(-1)
                    } else {
                        assert(sign_bit(x) == 0);
                        Some(1)
                    }
                },
                None => None,
            },
            false,
        ),
        ScalarInfo::Char(c) => ScalarInfo::Int(
            match c {
                Some(x) => {
                    let u: i64 = if is_uppercase(x) { 1 } else { 0 };
                    let l: i64 = if is_lowercase(x) { 1 } else { 0 };
                    Some(u - l)
                },
                None => None,
            },
            false,
        ),
    }
}

fn negate_scalar(s: ScalarInfo) -> (r: ScalarInfo)
    requires
        !is_int_min(s),
    ensures
        r == negate_of(s),
{
    match s {
        ScalarInfo::Bool(b) => ScalarInfo::Int(
            match b {
                Some(x) => Some(if x { -1 } else { 0 }),
                None => None,
            },
            false,
        ),
        ScalarInfo::Int(i, inf) => ScalarInfo::Int(
            match i {
                Some(x) => Some(-x),
                None => None,
            },
            inf,
        ),
        ScalarInfo::Float(f) => ScalarInfo::Float(
            match f {
                Some(x) => Some(
                    if x >= 0x8000_0000_0000_0000u64 {
                        x - 0x8000_0000_0000_0000u64
                    } else {
                        x + 0x8000_0000_0000_0000u64
                    },
                ),
                None => None,
            },
        ),
        ScalarInfo::Char(c) => ScalarInfo::Char(
            match c {
                Some(x) => {
                    let mut r = x;
                    let mut done = false;
                    if is_uppercase(x) {
                        let lower = to_lowercase(x);
                        if lower.len() == 1 {
                            r = lower[0];
                            done = true;
                        }
                    }
                    if !done && is_lowercase(x) {
                        let upper = to_uppercase(x);
                        if upper.len() == 1 {
                            r = upper[0];
                        }
                    }
                    Some(r)
                },
                None => None,
            },
        ),
    }
}

fn abs_scalar(s: ScalarInfo) -> (r: ScalarInfo)
    requires
        !is_int_min(s),
    ensures
        r == abs_of(s),
{
    match s {
        ScalarInfo::Bool(_) => s,
        ScalarInfo::Int(i, inf) => ScalarInfo::Int(
            match i {
                Some(x) => Some(if x < 0 { -x } else { x }),
                None => None,
            },
            inf,
        ),
        ScalarInfo::Float(f) => ScalarInfo::Float(
            match f {
                Some(x) => Some(
                    if x >= 0x8000_0000_0000_0000u64 {
                        x - 0x8000_0000_0000_0000u64
                    } else {
                        x
                    },
                ),
                None => None,
            },
        ),
        ScalarInfo::Char(c) => ScalarInfo::Char(
            match c {
                Some(x) => {
                    let upper = to_uppercase(x);
                    Some(if upper.len() == 1 { upper[0] } else { x })
                },
                None => None,
            },
        ),
    }
}

/// The sign of every scalar of a value: booleans stay, numbers become -1, 0
/// or 1, and characters 1 when uppercase, -1 when lowercase, else 0.
pub fn sign(input_info: &ValueInfo) -> (r: Result<ValueInfo, ErrorKind>)
    ensures
        r matches Ok(v) && vinfo(v) == vmap(vinfo(*input_info), sign_map()),
{
    let f = |s: ScalarInfo| -> (r: Result<ScalarInfo, ErrorKind>)
        ensures
            r == Ok::<ScalarInfo, ErrorKind>(sign_of(s)),
        { Ok(sign_scalar(s)) };
    proof {
        lemma_all_true(vinfo(*input_info), pre_of(f));
        lemma_all_true(vinfo(*input_info), ok_of(f));
    }
    let r = pervasive_monadic(input_info, &f);
    proof {
        if r is Ok {
            lemma_mapped_vmap(f, sign_map(), vinfo(*input_info), vinfo(r->Ok_0));
        }
    }
    r
}

/// The negation of every scalar of a value: booleans become 0 or -1,
/// numbers are negated, and characters swap case.
pub fn negate(input_info: &ValueInfo) -> (r: Result<ValueInfo, ErrorKind>)
    requires
        all_scalars(vinfo(*input_info), not_int_min()),
    ensures
        r matches Ok(v) && vinfo(v) == vmap(vinfo(*input_info), negate_map()),
{
    let f = |s: ScalarInfo| -> (r: Result<ScalarInfo, ErrorKind>)
        requires
            !is_int_min(s),
        ensures
            r == Ok::<ScalarInfo, ErrorKind>(negate_of(s)),
        { Ok(negate_scalar(s)) };
    proof {
        lemma_all_weaken(vinfo(*input_info), not_int_min(), pre_of(f));
        lemma_all_true(vinfo(*input_info), ok_of(f));
    }
    let r = pervasive_monadic(input_info, &f);
    proof {
        if r is Ok {
            lemma_mapped_vmap(f, negate_map(), vinfo(*input_info), vinfo(r->Ok_0));
        }
    }
    r
}

/// The absolute value of every scalar of a value: booleans stay, numbers
/// lose their sign, and characters become uppercase.
pub fn absolute_value(input_info: &ValueInfo) -> (r: Result<ValueInfo, ErrorKind>)
    requires
        all_scalars(vinfo(*input_info), not_int_min()),
    ensures
        r matches Ok(v) && vinfo(v) == vmap(vinfo(*input_info), abs_map()),
{
    let f = |s: ScalarInfo| -> (r: Result<ScalarInfo, ErrorKind>)
        requires
            !is_int_min(s),
        ensures
            r == Ok::<ScalarInfo, ErrorKind>(abs_of(s)),
        { Ok(abs_scalar(s)) };
    proof {
        lemma_all_weaken(vinfo(*input_info), not_int_min(), pre_of(f));
        lemma_all_true(vinfo(*input_info), ok_of(f));
    }
    let r = pervasive_monadic(input_info, &f);
    proof {
        if r is Ok {
            lemma_mapped_vmap(f, abs_map(), vinfo(*input_info), vinfo(r->Ok_0));
        }
    }
    r
}


/// With a scalar function whose successes give `g` of scalars that satisfy
/// `p`, a mapped value is the `vmap` of one whose scalars all satisfy `p`.
proof fn lemma_mapped_ok<F: Fn(ScalarInfo) -> Result<ScalarInfo, ErrorKind>>(
    f: F,
    g: spec_fn(ScalarInfo) -> ScalarInfo,
    p: spec_fn(ScalarInfo) -> bool,
    a: VInfo,
    b: VInfo,
)
    requires
        forall|x: ScalarInfo, y: ScalarInfo| #[trigger] call_ensures(f, (x,), Ok::<ScalarInfo, ErrorKind>(y)) ==> y == g(x) && p(x),
    ensures
        mono_mapped(f, a, b) ==> b == vmap(a, g) && all_scalars(a, p),
    decreases a,
{
    if mono_mapped(f, a, b) {
        match (a, b) {
            (VInfo::Scalar(x), VInfo::Scalar(y)) => {
                assert(call_ensures(f, (x,), Ok::<ScalarInfo, ErrorKind>(y)));
            },
            (VInfo::Array(aa), VInfo::Array(bb)) => match (*aa, *bb) {
                (AInfo::Known(e, sh, d), AInfo::Known(e2, sh2, d2)) => {
                    lemma_mapped_ok(f, g, p, e, e2);
                    lemma_mapped_ok_seq(f, g, p, d, d2);
                    assert(*bb == amap(*aa, g));
                },
                (AInfo::Ranked(e, sh), AInfo::Ranked(e2, sh2)) => {
                    lemma_mapped_ok(f, g, p, e, e2);
                    assert(*bb == amap(*aa, g));
                },
                (AInfo::Unranked(e, u, v), AInfo::Unranked(e2, u2, v2)) => {
                    lemma_mapped_ok(f, g, p, e, e2);
                    assert(*bb == amap(*aa, g));
                },
                _ => {},
            },
            (VInfo::Mapping(k, v), VInfo::Mapping(k2, v2)) => {
                lemma_mapped_ok(f, g, p, *v, *v2);
            },
            (VInfo::Struct(fs), VInfo::Struct(gs)) => {
                lemma_mapped_ok_fields(f, g, p, fs, gs);
            },
            (VInfo::Enum(vs), VInfo::Enum(ws)) => {
                lemma_mapped_ok_variants(f, g, p, vs, ws);
            },
            _ => {},
        }
    }
}

proof fn lemma_mapped_ok_seq<F: Fn(ScalarInfo) -> Result<ScalarInfo, ErrorKind>>(
    f: F,
    g: spec_fn(ScalarInfo) -> ScalarInfo,
    p: spec_fn(ScalarInfo) -> bool,
    d: Seq<VInfo>,
    d2: Seq<VInfo>,
)
    requires
        forall|x: ScalarInfo, y: ScalarInfo| #[trigger] call_ensures(f, (x,), Ok::<ScalarInfo, ErrorKind>(y)) ==> y == g(x) && p(x),
    ensures
        mapped_seq(f, d, d2) ==> d2 == map_seq(d, g) && all_seq(d, p),
    decreases d,
{
    if mapped_seq(f, d, d2) && d.len() > 0 {
        lemma_mapped_ok(f, g, p, d[0], d2[0]);
        lemma_mapped_ok_seq(f, g, p, d.subrange(1, d.len() as int), d2.subrange(1, d2.len() as int));
        assert(d2 =~= seq![d2[0]] + d2.subrange(1, d2.len() as int));
    } else if mapped_seq(f, d, d2) {
        assert(d2 =~= Seq::<VInfo>::empty());
    }
}

proof fn lemma_mapped_ok_fields<F: Fn(ScalarInfo) -> Result<ScalarInfo, ErrorKind>>(
    f: F,
    g: spec_fn(ScalarInfo) -> ScalarInfo,
    p: spec_fn(ScalarInfo) -> bool,
    fs: Fields,
    gs: Fields,
)
    requires
        forall|x: ScalarInfo, y: ScalarInfo| #[trigger] call_ensures(f, (x,), Ok::<ScalarInfo, ErrorKind>(y)) ==> y == g(x) && p(x),
    ensures
        mapped_fields(f, fs, gs) ==> gs == map_fields(fs, g) && all_fields(fs, p),
    decreases fs,
{
    if mapped_fields(f, fs, gs) && fs.len() > 0 {
        lemma_mapped_ok(f, g, p, fs[0].1, gs[0].1);
        lemma_mapped_ok_fields(f, g, p, fs.subrange(1, fs.len() as int), gs.subrange(1, gs.len() as int));
        assert(gs =~= seq![gs[0]] + gs.subrange(1, gs.len() as int));
    } else if mapped_fields(f, fs, gs) {
        assert(gs =~= Seq::<(Seq<char>, VInfo)>::empty());
    }
}

proof fn lemma_mapped_ok_variants<F: Fn(ScalarInfo) -> Result<ScalarInfo, ErrorKind>>(
    f: F,
    g: spec_fn(ScalarInfo) -> ScalarInfo,
    p: spec_fn(ScalarInfo) -> bool,
    vs: Variants,
    ws: Variants,
)
    requires
        forall|x: ScalarInfo, y: ScalarInfo| #[trigger] call_ensures(f, (x,), Ok::<ScalarInfo, ErrorKind>(y)) ==> y == g(x) && p(x),
    ensures
        mapped_variants(f, vs, ws) ==> ws == map_variants(vs, g) && all_variants(vs, p),
    decreases vs,
{
    if mapped_variants(f, vs, ws) && vs.len() > 0 {
        lemma_mapped_ok_fields(f, g, p, vs[0].1, ws[0].1);
        lemma_mapped_ok_variants(f, g, p, vs.subrange(1, vs.len() as int), ws.subrange(1, ws.len() as int));
        assert(ws =~= seq![ws[0]] + ws.subrange(1, ws.len() as int));
    } else if mapped_variants(f, vs, ws) {
        assert(ws =~= Seq::<(Seq<char>, Fields)>::empty());
    }
}

/// When every failure of `f` on a scalar satisfies `h`, so does every error
/// that `mono_fails` admits.
proof fn lemma_fails_kind<F: Fn(ScalarInfo) -> Result<ScalarInfo, ErrorKind>>(
    f: F,
    h: spec_fn(ErrorKind) -> bool,
    a: VInfo,
    e: ErrorKind,
)
    requires
        forall|x: ScalarInfo, e2: ErrorKind| #[trigger] call_ensures(f, (x,), Err::<ScalarInfo, ErrorKind>(e2)) ==> h(e2),
        mono_fails(f, a, e),
    ensures
        h(e),
    decreases a,
{
    match a {
        VInfo::Array(aa) => match *aa {
            AInfo::Known(el, _, d) => {
                if mono_fails(f, el, e) {
                    lemma_fails_kind(f, h, el, e);
                } else {
                    lemma_fails_kind_seq(f, h, d, e);
                }
            },
            AInfo::Ranked(el, _) => lemma_fails_kind(f, h, el, e),
            AInfo::Unranked(el, _, _) => lemma_fails_kind(f, h, el, e),
        },
        VInfo::Mapping(_, v) => lemma_fails_kind(f, h, *v, e),
        VInfo::Struct(fs) => lemma_fails_kind_fields(f, h, fs, e),
        VInfo::Enum(vs) => lemma_fails_kind_variants(f, h, vs, e),
        _ => {},
    }
}

proof fn lemma_fails_kind_seq<F: Fn(ScalarInfo) -> Result<ScalarInfo, ErrorKind>>(
    f: F,
    h: spec_fn(ErrorKind) -> bool,
    d: Seq<VInfo>,
    e: ErrorKind,
)
    requires
        forall|x: ScalarInfo, e2: ErrorKind| #[trigger] call_ensures(f, (x,), Err::<ScalarInfo, ErrorKind>(e2)) ==> h(e2),
        fails_seq(f, d, e),
    ensures
        h(e),
    decreases d,
{
    if mono_fails(f, d[0], e) {
        lemma_fails_kind(f, h, d[0], e);
    } else {
        lemma_fails_kind_seq(f, h, d.subrange(1, d.len() as int), e);
    }
}

proof fn lemma_fails_kind_fields<F: Fn(ScalarInfo) -> Result<ScalarInfo, ErrorKind>>(
    f: F,
    h: spec_fn(ErrorKind) -> bool,
    fs: Fields,
    e: ErrorKind,
)
    requires
        forall|x: ScalarInfo, e2: ErrorKind| #[trigger] call_ensures(f, (x,), Err::<ScalarInfo, ErrorKind>(e2)) ==> h(e2),
        fails_fields(f, fs, e),
    ensures
        h(e),
    decreases fs,
{
    if mono_fails(f, fs[0].1, e) {
        lemma_fails_kind(f, h, fs[0].1, e);
    } else {
        lemma_fails_kind_fields(f, h, fs.subrange(1, fs.len() as int), e);
    }
}

proof fn lemma_fails_kind_variants<F: Fn(ScalarInfo) -> Result<ScalarInfo, ErrorKind>>(
    f: F,
    h: spec_fn(ErrorKind) -> bool,
    vs: Variants,
    e: ErrorKind,
)
    requires
        forall|x: ScalarInfo, e2: ErrorKind| #[trigger] call_ensures(f, (x,), Err::<ScalarInfo, ErrorKind>(e2)) ==> h(e2),
        fails_variants(f, vs, e),
    ensures
        h(e),
    decreases vs,
{
    if fails_fields(f, vs[0].1, e) {
        lemma_fails_kind_fields(f, h, vs[0].1, e);
    } else {
        lemma_fails_kind_variants(f, h, vs.subrange(1, vs.len() as int), e);
    }
}

/// A scalar brought to a whole number by `mode`: booleans and integers
/// stay, and a double becomes an integer that may stand for an infinity.
pub open spec fn rounded_of(s: ScalarInfo, mode: Rounding) -> ScalarInfo {
    match s {
        ScalarInfo::Float(f) => ScalarInfo::Int(float_to_int_opt(f, mode).0, float_to_int_opt(f, mode).1),
        _ => s,
    }
}

pub open spec fn rounded_map(mode: Rounding) -> spec_fn(ScalarInfo) -> ScalarInfo {
    |s: ScalarInfo| rounded_of(s, mode)
}

pub open spec fn not_char() -> spec_fn(ScalarInfo) -> bool {
    |s: ScalarInfo| !(s is Char)
}

/// Whether `e` is the error that the function `name` gives on characters
/// within a value of type `a`.
pub open spec fn expected_number(e: ErrorKind, name: &'static str, a: VInfo) -> bool {
    e matches ErrorKind::ExpectedNumber(n, t) && n@ == name@ && t@ == type_text(a)
}

/// The value type that `v` describes.
spec fn type_of(v: &ValueInfo) -> VInfo {
    vinfo(*v)
}

/// Every number of a value brought to a whole number by `mode`; the
/// function `name` refuses characters.
fn round_scalars(input_info: &ValueInfo, mode: Rounding, name: &'static str) -> (r: Result<ValueInfo, ErrorKind>)
    requires
        !nameable(vinfo(*input_info)) ==> all_scalars(vinfo(*input_info), not_char()),
    ensures
        r is Ok <==> all_scalars(vinfo(*input_info), not_char()),
        r matches Ok(v) ==> vinfo(v) == vmap(vinfo(*input_info), rounded_map(mode)),
        r matches Err(e) ==> expected_number(e, name, vinfo(*input_info)),
{
    let ghost a = vinfo(*input_info);
    let f = |s: ScalarInfo| -> (r: Result<ScalarInfo, ErrorKind>)
        requires
            s is Char ==> nameable(type_of(input_info)),
        ensures
            s is Char ==> (r matches Err(e) && expected_number(e, name, type_of(input_info))),
            !(s is Char) ==> r == Ok::<ScalarInfo, ErrorKind>(rounded_of(s, mode)),
        {
            match s {
                ScalarInfo::Float(x) => {
                    let (i, inf) = match x {
                        None => (None, true),
                        Some(b) => (Some(float_to_whole(b, mode)), float_is_infinite(b)),
                    };
                    Ok(ScalarInfo::Int(i, inf))
                },
                ScalarInfo::Char(_) => Err(ErrorKind::ExpectedNumber(name, input_info.type_label())),
                _ => Ok(s),
            }
        };
    proof {
        if nameable(a) {
            lemma_all_true(a, pre_of(f));
        } else {
            lemma_all_weaken(a, not_char(), pre_of(f));
        }
        lemma_all_weaken(a, not_char(), ok_of(f));
        assert forall|x: ScalarInfo, y: ScalarInfo| #[trigger] call_ensures(f, (x,), Ok::<ScalarInfo, ErrorKind>(y)) implies y == rounded_map(mode)(x) && not_char()(x) by {}
        assert forall|x: ScalarInfo, e2: ErrorKind| #[trigger] call_ensures(f, (x,), Err::<ScalarInfo, ErrorKind>(e2)) implies expected_number(e2, name, a) by {}
    }
    let r = pervasive_monadic(input_info, &f);
    proof {
        if r is Ok {
            lemma_mapped_ok(f, rounded_map(mode), not_char(), a, vinfo(r->Ok_0));
        } else {
            let h = |e2: ErrorKind| expected_number(e2, name, a);
            lemma_fails_kind(f, h, a, r->Err_0);
        }
    }
    r
}

/// Every number of a value rounded down to a whole number: booleans and
/// integers stay, and doubles become integers (saturating, NaN as 0, an
/// unknown or infinite one as possibly infinite). Characters are refused.
pub fn floor(input_info: &ValueInfo) -> (r: Result<ValueInfo, ErrorKind>)
    requires
        !nameable(vinfo(*input_info)) ==> all_scalars(vinfo(*input_info), not_char()),
    ensures
        r is Ok <==> all_scalars(vinfo(*input_info), not_char()),
        r matches Ok(v) ==> vinfo(v) == vmap(vinfo(*input_info), rounded_map(Rounding::Floor)),
        r matches Err(e) ==> expected_number(e, "floor", vinfo(*input_info)),
{
    round_scalars(input_info, Rounding::Floor, "floor")
}

/// Every number of a value rounded up to a whole number, as `floor` does
/// it downward.
pub fn ceiling(input_info: &ValueInfo) -> (r: Result<ValueInfo, ErrorKind>)
    requires
        !nameable(vinfo(*input_info)) ==> all_scalars(vinfo(*input_info), not_char()),
    ensures
        r is Ok <==> all_scalars(vinfo(*input_info), not_char()),
        r matches Ok(v) ==> vinfo(v) == vmap(vinfo(*input_info), rounded_map(Rounding::Ceiling)),
        r matches Err(e) ==> expected_number(e, "ceiling", vinfo(*input_info)),
{
    round_scalars(input_info, Rounding::Ceiling, "ceiling")
}

/// Every number of a value rounded to the nearest whole number, halves
/// away from zero, as `floor` does it downward.
pub fn round(input_info: &ValueInfo) -> (r: Result<ValueInfo, ErrorKind>)
    requires
        !nameable(vinfo(*input_info)) ==> all_scalars(vinfo(*input_info), not_char()),
    ensures
        r is Ok <==> all_scalars(vinfo(*input_info), not_char()),
        r matches Ok(v) ==> vinfo(v) == vmap(vinfo(*input_info), rounded_map(Rounding::Nearest)),
        r matches Err(e) ==> expected_number(e, "round", vinfo(*input_info)),
{
    round_scalars(input_info, Rounding::Nearest, "round")
}

/// Mapping twice with `g` is mapping once, when `g` is idempotent on the
/// scalars of the value.
pub proof fn lemma_vmap_idempotent(a: VInfo, g: spec_fn(ScalarInfo) -> ScalarInfo)
    requires
        forall|x: ScalarInfo| #[trigger] g(g(x)) == g(x),
    ensures
        vmap(vmap(a, g), g) == vmap(a, g),
    decreases a,
{
    match a {
        VInfo::Scalar(_) => {},
        VInfo::Array(aa) => lemma_amap_idempotent(*aa, g),
        VInfo::Mapping(_, v) => lemma_vmap_idempotent(*v, g),
        VInfo::Struct(fs) => lemma_map_fields_idempotent(fs, g),
        VInfo::Enum(vs) => lemma_map_variants_idempotent(vs, g),
    }
}

proof fn lemma_amap_idempotent(a: AInfo, g: spec_fn(ScalarInfo) -> ScalarInfo)
    requires
        forall|x: ScalarInfo| #[trigger] g(g(x)) == g(x),
    ensures
        amap(amap(a, g), g) == amap(a, g),
    decreases a,
{
    match a {
        AInfo::Known(e, _, d) => {
            lemma_vmap_idempotent(e, g);
            lemma_map_seq_idempotent(d, g);
        },
        AInfo::Ranked(e, _) => lemma_vmap_idempotent(e, g),
        AInfo::Unranked(e, _, _) => lemma_vmap_idempotent(e, g),
    }
}

proof fn lemma_map_seq_idempotent(d: Seq<VInfo>, g: spec_fn(ScalarInfo) -> ScalarInfo)
    requires
        forall|x: ScalarInfo| #[trigger] g(g(x)) == g(x),
    ensures
        map_seq(map_seq(d, g), g) == map_seq(d, g),
    decreases d,
{
    if d.len() > 0 {
        let m = map_seq(d, g);
        lemma_vmap_idempotent(d[0], g);
        lemma_map_seq_idempotent(d.subrange(1, d.len() as int), g);
        assert(m[0] == vmap(d[0], g));
        assert(m.subrange(1, m.len() as int) =~= map_seq(d.subrange(1, d.len() as int), g));
    }
}

proof fn lemma_map_fields_idempotent(fs: Fields, g: spec_fn(ScalarInfo) -> ScalarInfo)
    requires
        forall|x: ScalarInfo| #[trigger] g(g(x)) == g(x),
    ensures
        map_fields(map_fields(fs, g), g) == map_fields(fs, g),
    decreases fs,
{
    if fs.len() > 0 {
        let m = map_fields(fs, g);
        lemma_vmap_idempotent(fs[0].1, g);
        lemma_map_fields_idempotent(fs.subrange(1, fs.len() as int), g);
        assert(m[0] == (fs[0].0, vmap(fs[0].1, g)));
        assert(m.subrange(1, m.len() as int) =~= map_fields(fs.subrange(1, fs.len() as int), g));
    }
}

proof fn lemma_map_variants_idempotent(vs: Variants, g: spec_fn(ScalarInfo) -> ScalarInfo)
    requires
        forall|x: ScalarInfo| #[trigger] g(g(x)) == g(x),
    ensures
        map_variants(map_variants(vs, g), g) == map_variants(vs, g),
    decreases vs,
{
    if vs.len() > 0 {
        let m = map_variants(vs, g);
        lemma_map_fields_idempotent(vs[0].1, g);
        lemma_map_variants_idempotent(vs.subrange(1, vs.len() as int), g);
        assert(m[0] == (vs[0].0, map_fields(vs[0].1, g)));
        assert(m.subrange(1, m.len() as int) =~= map_variants(vs.subrange(1, vs.len() as int), g));
    }
}

/// The scalar map `g` after `f`.
pub open spec fn then_map(f: spec_fn(ScalarInfo) -> ScalarInfo, g: spec_fn(ScalarInfo) -> ScalarInfo) -> spec_fn(ScalarInfo) -> ScalarInfo {
    |x: ScalarInfo| g(f(x))
}

/// Mapping the scalars of a value with `f` and then with `g` is mapping them
/// once with `g` after `f`; only scalars change.
pub proof fn lemma_vmap_compose(a: VInfo, f: spec_fn(ScalarInfo) -> ScalarInfo, g: spec_fn(ScalarInfo) -> ScalarInfo)
    ensures
        vmap(vmap(a, f), g) == vmap(a, then_map(f, g)),
    decreases a,
{
    match a {
        VInfo::Scalar(_) => {},
        VInfo::Array(aa) => lemma_amap_compose(*aa, f, g),
        VInfo::Mapping(_, v) => lemma_vmap_compose(*v, f, g),
        VInfo::Struct(fs) => lemma_map_fields_compose(fs, f, g),
        VInfo::Enum(vs) => lemma_map_variants_compose(vs, f, g),
    }
}

proof fn lemma_amap_compose(a: AInfo, f: spec_fn(ScalarInfo) -> ScalarInfo, g: spec_fn(ScalarInfo) -> ScalarInfo)
    ensures
        amap(amap(a, f), g) == amap(a, then_map(f, g)),
    decreases a,
{
    match a {
        AInfo::Known(e, _, d) => {
            lemma_vmap_compose(e, f, g);
            lemma_map_seq_compose(d, f, g);
        },
        AInfo::Ranked(e, _) => lemma_vmap_compose(e, f, g),
        AInfo::Unranked(e, _, _) => lemma_vmap_compose(e, f, g),
    }
}

proof fn lemma_map_seq_compose(d: Seq<VInfo>, f: spec_fn(ScalarInfo) -> ScalarInfo, g: spec_fn(ScalarInfo) -> ScalarInfo)
    ensures
        map_seq(map_seq(d, f), g) == map_seq(d, then_map(f, g)),
    decreases d,
{
    if d.len() > 0 {
        let m = map_seq(d, f);
        lemma_vmap_compose(d[0], f, g);
        lemma_map_seq_compose(d.subrange(1, d.len() as int), f, g);
        assert(m[0] == vmap(d[0], f));
        assert(m.subrange(1, m.len() as int) =~= map_seq(d.subrange(1, d.len() as int), f));
    }
}

proof fn lemma_map_fields_compose(fs: Fields, f: spec_fn(ScalarInfo) -> ScalarInfo, g: spec_fn(ScalarInfo) -> ScalarInfo)
    ensures
        map_fields(map_fields(fs, f), g) == map_fields(fs, then_map(f, g)),
    decreases fs,
{
    if fs.len() > 0 {
        let m = map_fields(fs, f);
        lemma_vmap_compose(fs[0].1, f, g);
        lemma_map_fields_compose(fs.subrange(1, fs.len() as int), f, g);
        assert(m[0] == (fs[0].0, vmap(fs[0].1, f)));
        assert(m.subrange(1, m.len() as int) =~= map_fields(fs.subrange(1, fs.len() as int), f));
    }
}

proof fn lemma_map_variants_compose(vs: Variants, f: spec_fn(ScalarInfo) -> ScalarInfo, g: spec_fn(ScalarInfo) -> ScalarInfo)
    ensures
        map_variants(map_variants(vs, f), g) == map_variants(vs, then_map(f, g)),
    decreases vs,
{
    if vs.len() > 0 {
        let m = map_variants(vs, f);
        lemma_map_fields_compose(vs[0].1, f, g);
        lemma_map_variants_compose(vs.subrange(1, vs.len() as int), f, g);
        assert(m[0] == (vs[0].0, map_fields(vs[0].1, f)));
        assert(m.subrange(1, m.len() as int) =~= map_variants(vs.subrange(1, vs.len() as int), f));
    }
}

/// Mapping with the identity changes nothing.
pub proof fn lemma_vmap_identity(a: VInfo)
    ensures
        vmap(a, |x: ScalarInfo| x) == a,
{
    lemma_vmap_fixed(a, |x: ScalarInfo| x);
}

/// Two calls of `pervasive_monadic`, with scalar functions that give `f1`
/// and `g1` of their arguments when they succeed, give what one call with
/// `g1` after `f1` gives: the value with only its scalars changed.
pub proof fn lemma_pervasive_monadic_compose<F: Fn(ScalarInfo) -> Result<ScalarInfo, ErrorKind>, G: Fn(ScalarInfo) -> Result<ScalarInfo, ErrorKind>>(
    f: F,
    g: G,
    f1: spec_fn(ScalarInfo) -> ScalarInfo,
    g1: spec_fn(ScalarInfo) -> ScalarInfo,
    a: VInfo,
    b: VInfo,
    c: VInfo,
)
    requires
        forall|x: ScalarInfo, y: ScalarInfo| #[trigger] call_ensures(f, (x,), Ok::<ScalarInfo, ErrorKind>(y)) ==> y == f1(x),
        forall|x: ScalarInfo, y: ScalarInfo| #[trigger] call_ensures(g, (x,), Ok::<ScalarInfo, ErrorKind>(y)) ==> y == g1(x),
        mono_mapped(f, a, b),
        mono_mapped(g, b, c),
    ensures
        c == vmap(a, then_map(f1, g1)),
{
    let t = |x: ScalarInfo| true;
    lemma_mapped_ok(f, f1, t, a, b);
    lemma_mapped_ok(g, g1, t, b, c);
    lemma_vmap_compose(a, f1, g1);
}

/// A call of `pervasive_monadic` whose scalar function gives back its
/// argument gives back the value.
pub proof fn lemma_pervasive_monadic_identity<F: Fn(ScalarInfo) -> Result<ScalarInfo, ErrorKind>>(f: F, a: VInfo, b: VInfo)
    requires
        forall|x: ScalarInfo, y: ScalarInfo| #[trigger] call_ensures(f, (x,), Ok::<ScalarInfo, ErrorKind>(y)) ==> y == x,
        mono_mapped(f, a, b),
    ensures
        b == a,
{
    let id = |x: ScalarInfo| x;
    lemma_mapped_ok(f, id, |x: ScalarInfo| true, a, b);
    lemma_vmap_fixed(a, id);
}

/// Mapping with a scalar map that changes no scalar changes nothing.
pub proof fn lemma_vmap_fixed(a: VInfo, g: spec_fn(ScalarInfo) -> ScalarInfo)
    requires
        forall|x: ScalarInfo| #[trigger] g(x) == x,
    ensures
        vmap(a, g) == a,
    decreases a,
{
    match a {
        VInfo::Scalar(_) => {},
        VInfo::Array(aa) => {
            match *aa {
                AInfo::Known(e, _, d) => {
                    lemma_vmap_fixed(e, g);
                    lemma_map_seq_fixed(d, g);
                },
                AInfo::Ranked(e, _) => lemma_vmap_fixed(e, g),
                AInfo::Unranked(e, _, _) => lemma_vmap_fixed(e, g),
            }
            assert(amap(*aa, g) == *aa);
        },
        VInfo::Mapping(_, v) => lemma_vmap_fixed(*v, g),
        VInfo::Struct(fs) => lemma_map_fields_fixed(fs, g),
        VInfo::Enum(vs) => lemma_map_variants_fixed(vs, g),
    }
}

proof fn lemma_map_seq_fixed(d: Seq<VInfo>, g: spec_fn(ScalarInfo) -> ScalarInfo)
    requires
        forall|x: ScalarInfo| #[trigger] g(x) == x,
    ensures
        map_seq(d, g) == d,
    decreases d,
{
    if d.len() > 0 {
        lemma_vmap_fixed(d[0], g);
        lemma_map_seq_fixed(d.subrange(1, d.len() as int), g);
        assert(map_seq(d, g) =~= d);
    } else {
        assert(map_seq(d, g) =~= d);
    }
}

proof fn lemma_map_fields_fixed(fs: Fields, g: spec_fn(ScalarInfo) -> ScalarInfo)
    requires
        forall|x: ScalarInfo| #[trigger] g(x) == x,
    ensures
        map_fields(fs, g) == fs,
    decreases fs,
{
    if fs.len() > 0 {
        lemma_vmap_fixed(fs[0].1, g);
        lemma_map_fields_fixed(fs.subrange(1, fs.len() as int), g);
        assert(map_fields(fs, g) =~= fs);
    } else {
        assert(map_fields(fs, g) =~= fs);
    }
}

proof fn lemma_map_variants_fixed(vs: Variants, g: spec_fn(ScalarInfo) -> ScalarInfo)
    requires
        forall|x: ScalarInfo| #[trigger] g(x) == x,
    ensures
        map_variants(vs, g) == vs,
    decreases vs,
{
    if vs.len() > 0 {
        lemma_map_fields_fixed(vs[0].1, g);
        lemma_map_variants_fixed(vs.subrange(1, vs.len() as int), g);
        assert(map_variants(vs, g) =~= vs);
    } else {
        assert(map_variants(vs, g) =~= vs);
    }
}

/// The sign of a known integer is -1, 0 or 1, and times the integer's
/// magnitude it gives the integer back; the result is never infinite.
pub proof fn lemma_sign_int(i: i64, inf: bool)
    ensures
        sign_of(ScalarInfo::Int(Some(i), inf)) matches ScalarInfo::Int(Some(g), false) && -1 <= g <= 1 && g * (if i < 0 {
            -(i as int)
        } else {
            i as int
        }) == i,
{
    if i < 0 {
        assert(-1 * (-(i as int)) == i);
    } else if i > 0 {
        assert(1 * (i as int) == i);
    } else {
        assert(0 * (i as int) == i);
    }
}

/// The sign of a whole number is the same whether it is held as an integer
/// or as the double nearest to it: zero has sign 0 either way, positive
/// numbers 1 and negative numbers -1.
pub proof fn lemma_sign_whole_float(i: i64, inf: bool)
    ensures
        sign_of(ScalarInfo::Float(Some(int_to_float_bits(i)))) == sign_of(ScalarInfo::Int(Some(i), inf)),
{
    lemma_int_to_float_sign(i);
}

/// Doubles that are equal as numbers have the same sign; in particular the
/// two zeros both have sign 0.
pub proof fn lemma_sign_respects_float_eq(a: u64, b: u64)
    requires
        float_eq(a, b),
    ensures
        sign_of(ScalarInfo::Float(Some(a))) == sign_of(ScalarInfo::Float(Some(b))),
{
}

/// The sign of a sign is itself: taking the sign of a value's scalars a
/// second time changes nothing.
pub proof fn lemma_sign_idempotent(a: VInfo)
    ensures
        vmap(vmap(a, sign_map()), sign_map()) == vmap(a, sign_map()),
{
    assert forall|x: ScalarInfo| #[trigger] sign_map()(sign_map()(x)) == sign_map()(x) by {
        match x {
            ScalarInfo::Char(Some(c)) => {
                assert(-1 <= char_sign(c) <= 1);
            },
            _ => {},
        }
    }
    lemma_vmap_idempotent(a, sign_map());
}

/// Rounding twice is rounding once: after `floor`, `ceiling` or `round`
/// every number is an integer, which rounding keeps.
pub proof fn lemma_rounding_idempotent(a: VInfo, mode: Rounding)
    ensures
        vmap(vmap(a, rounded_map(mode)), rounded_map(mode)) == vmap(a, rounded_map(mode)),
{
    assert forall|x: ScalarInfo| #[trigger] rounded_map(mode)(rounded_map(mode)(x)) == rounded_map(mode)(x) by {}
    lemma_vmap_idempotent(a, rounded_map(mode));
}

/// Whether a scalar is a number that negation gives back: a float, or an
/// integer other than `i64::MIN`.
pub open spec fn negatable_number(s: ScalarInfo) -> bool {
    s is Float || (s is Int && !is_int_min(s))
}

/// Negating a value of numbers twice gives it back.
pub proof fn lemma_negate_involution(a: VInfo)
    requires
        all_scalars(a, |s: ScalarInfo| negatable_number(s)),
    ensures
        vmap(vmap(a, negate_map()), negate_map()) == a,
    decreases a,
{
    match a {
        VInfo::Scalar(x) => {
            assert(negatable_number(x));
            assert(negate_map()(x) == negate_of(x));
            assert(negate_map()(negate_of(x)) == negate_of(negate_of(x)));
            match x {
                ScalarInfo::Float(Some(b)) => {
                    assert(flip_sign(flip_sign(b)) == b);
                },
                ScalarInfo::Int(Some(v), inf) => {
                    assert(negatable_number(x));
                    assert(v != i64::MIN);
                    let w = (-v) as i64;
                    assert(w == -v);
                    assert(negate_of(x) == ScalarInfo::Int(Some(w), inf));
                    assert(negate_of(negate_of(x)) == x);
                },
                _ => {
                    assert(negate_of(negate_of(x)) == x);
                },
            }
        },
        VInfo::Array(aa) => {
            match *aa {
                AInfo::Known(e, _, d) => {
                    lemma_negate_involution(e);
                    lemma_negate_involution_seq(d);
                },
                AInfo::Ranked(e, _) => lemma_negate_involution(e),
                AInfo::Unranked(e, _, _) => lemma_negate_involution(e),
            }
            assert(amap(amap(*aa, negate_map()), negate_map()) == *aa);
        },
        VInfo::Mapping(_, v) => lemma_negate_involution(*v),
        VInfo::Struct(fs) => lemma_negate_involution_fields(fs),
        VInfo::Enum(vs) => lemma_negate_involution_variants(vs),
    }
}

proof fn lemma_negate_involution_seq(d: Seq<VInfo>)
    requires
        all_seq(d, |s: ScalarInfo| negatable_number(s)),
    ensures
        map_seq(map_seq(d, negate_map()), negate_map()) == d,
    decreases d,
{
    if d.len() > 0 {
        let m = map_seq(d, negate_map());
        lemma_negate_involution(d[0]);
        lemma_negate_involution_seq(d.subrange(1, d.len() as int));
        assert(m[0] == vmap(d[0], negate_map()));
        assert(m.subrange(1, m.len() as int) =~= map_seq(d.subrange(1, d.len() as int), negate_map()));
        assert(map_seq(m, negate_map()) =~= d);
    }
}

proof fn lemma_negate_involution_fields(fs: Fields)
    requires
        all_fields(fs, |s: ScalarInfo| negatable_number(s)),
    ensures
        map_fields(map_fields(fs, negate_map()), negate_map()) == fs,
    decreases fs,
{
    if fs.len() > 0 {
        let m = map_fields(fs, negate_map());
        lemma_negate_involution(fs[0].1);
        lemma_negate_involution_fields(fs.subrange(1, fs.len() as int));
        assert(m[0] == (fs[0].0, vmap(fs[0].1, negate_map())));
        assert(m.subrange(1, m.len() as int) =~= map_fields(fs.subrange(1, fs.len() as int), negate_map()));
        assert(map_fields(m, negate_map()) =~= fs);
    }
}

proof fn lemma_negate_involution_variants(vs: Variants)
    requires
        all_variants(vs, |s: ScalarInfo| negatable_number(s)),
    ensures
        map_variants(map_variants(vs, negate_map()), negate_map()) == vs,
    decreases vs,
{
    if vs.len() > 0 {
        let m = map_variants(vs, negate_map());
        lemma_negate_involution_fields(vs[0].1);
        lemma_negate_involution_variants(vs.subrange(1, vs.len() as int));
        assert(m[0] == (vs[0].0, map_fields(vs[0].1, negate_map())));
        assert(m.subrange(1, m.len() as int) =~= map_variants(vs.subrange(1, vs.len() as int), negate_map()));
        assert(map_variants(m, negate_map()) =~= vs);
    }
}

} // verus!
