//! Static analysis of type, rank and shape.
pub mod error;
pub mod impls;
pub mod construct;

pub use construct::{construct_tir, monomorphize_and_analyze};

use vstd::prelude::*;

use crate::float::{float_eq, float_equals, float_whole, whole_value, NEG_INFINITY, ONE, POS_INFINITY};
use crate::tir::{
    ainfo, clone_usizes, lemma_values_view, scalar_of, values_view, vinfo, vsuper, AInfo, ArrayInfo, ArrayValue,
    Outcome, ScalarInfo, VInfo, ValueInfo,
};
use crate::analysis::impls::pervasive_dyadic::{upcast, upcastable};

verus! {

/// Why a constant value could not be given a type.
#[derive(Clone, Copy, Debug, PartialEq, Eq)]
pub enum UiuaValueError {
    /// The elements of an array have no common type.
    NoArrayType,
}

impl UiuaValueError {
    /// The message shown for this error.
    pub fn message(&self) -> (r: &'static str)
        ensures
            r@ == "Could not infer array type"@,
    {
        "Could not infer array type"
    }
}

/// A constant of the language as typing reads it: a scalar (an array of rank
/// zero) by its one element, or an array of rank one or more by its shape and
/// its elements, each a scalar. Numbers are held as the bits of doubles, and
/// a boxed scalar holds the constant in its box.
pub enum UValue {
    Byte(u8),
    Num(u64),
    Char(char),
    Boxed(Box<UValue>),
    Complex,
    Array(Vec<usize>, Vec<UValue>),
}

/// The type of a number constant: zero and one are booleans, a whole number
/// of magnitude below `2^53` is an integer, the infinities are the
/// integer-or-infinity extremes, and any other number is a float.
pub open spec fn num_info(f: u64) -> ScalarInfo {
    if float_eq(f, 0) {
        ScalarInfo::Bool(Some(false))
    } else if float_eq(f, ONE) {
        ScalarInfo::Bool(Some(true))
    } else {
        match whole_value(f) {
            Some(v) => ScalarInfo::Int(Some(v as i64), false),
            None => if f == POS_INFINITY {
                ScalarInfo::Int(Some(i64::MAX), true)
            } else if f == NEG_INFINITY {
                ScalarInfo::Int(Some((i64::MIN + 1) as i64), true)
            } else {
                ScalarInfo::Float(Some(f))
            },
        }
    }
}

/// The type of a byte constant: zero and one are booleans.
pub open spec fn byte_info(b: u8) -> ScalarInfo {
    if b <= 1 {
        ScalarInfo::Bool(Some(b == 1))
    } else {
        ScalarInfo::Int(Some(b as i64), false)
    }
}

/// How typing a constant ends: the analysis has no rule for it (complex
/// numbers, or element types it cannot combine), the elements of an array
/// have no common type, or a type; with the variable counter afterwards.
pub enum Typing<T> {
    Unsupported,
    NoType(nat),
    Typed(T, nat),
}

/// The type of a constant, numbering fresh shape variables from `n`. An
/// array's element type is the supertype of its elements' types, taken from
/// the first element on; its scalars are then widened to the scalar kind of
/// that element type.
pub open spec fn typing(u: UValue, n: nat) -> Typing<VInfo>
    decreases u, 1nat, 0nat,
{
    match u {
        UValue::Byte(b) => Typing::Typed(VInfo::Scalar(byte_info(b)), n),
        UValue::Num(f) => Typing::Typed(VInfo::Scalar(num_info(f)), n),
        UValue::Char(c) => Typing::Typed(VInfo::Scalar(ScalarInfo::Char(Some(c))), n),
        UValue::Boxed(inner) => typing(*inner, n),
        UValue::Complex => Typing::Unsupported,
        UValue::Array(shape, elems) => match typing_all(u, elems@.len(), n) {
            Typing::Typed(d, m) => match fold_super(d, d.len(), m) {
                Outcome::Found(et, m2) => {
                    let val = VInfo::Array(Box::new(AInfo::Known(et, shape@, d)));
                    match scalar_of(val) {
                        Some(st) => if upcastable(val) {
                            Typing::Typed(upcast(val, st), m2)
                        } else {
                            Typing::Unsupported
                        },
                        None => Typing::Typed(val, m2),
                    }
                },
                Outcome::Absent(m2) => Typing::NoType(m2),
                Outcome::Unsupported => Typing::Unsupported,
            },
            Typing::NoType(m) => Typing::NoType(m),
            Typing::Unsupported => Typing::Unsupported,
        },
    }
}

/// The types of the first `k` elements of an array constant, in order.
pub open spec fn typing_all(parent: UValue, k: nat, n: nat) -> Typing<Seq<VInfo>>
    decreases parent, 0nat, k,
{
    match parent {
        UValue::Array(_, elems) => if k == 0 {
            Typing::Typed(seq![], n)
        } else if k > elems@.len() {
            Typing::Unsupported
        } else {
            match typing_all(parent, (k - 1) as nat, n) {
                Typing::Typed(d, m) => match typing(elems@[k - 1], m) {
                    Typing::Typed(v, m2) => Typing::Typed(d.push(v), m2),
                    Typing::NoType(m2) => Typing::NoType(m2),
                    Typing::Unsupported => Typing::Unsupported,
                },
                Typing::NoType(m) => Typing::NoType(m),
                Typing::Unsupported => Typing::Unsupported,
            }
        },
        _ => Typing::Unsupported,
    }
}

/// The supertype of the first `k` types, folded from the first on: none for
/// no types, and none from the first pair that has none.
pub open spec fn fold_super(d: Seq<VInfo>, k: nat, n: nat) -> Outcome<VInfo>
    decreases k,
{
    if k == 0 || k > d.len() {
        Outcome::Absent(n)
    } else if k == 1 {
        Outcome::Found(d[0], n)
    } else {
        match fold_super(d, (k - 1) as nat, n) {
            Outcome::Found(x, m) => vsuper(x, d[k - 1], m),
            other => other,
        }
    }
}

proof fn lemma_typing_all_stops(parent: UValue, j: nat, k: nat, n: nat)
    requires
        j <= k,
        parent is Array,
        k <= parent->Array_1.len(),
    ensures
        typing_all(parent, j, n) is Unsupported ==> typing_all(parent, k, n) is Unsupported,
        typing_all(parent, j, n) matches Typing::NoType(m) ==> typing_all(parent, k, n) == Typing::<Seq<VInfo>>::NoType(m),
    decreases k,
{
    if j < k {
        lemma_typing_all_stops(parent, j, (k - 1) as nat, n);
    }
}

proof fn lemma_fold_stops(d: Seq<VInfo>, j: nat, k: nat, n: nat)
    requires
        1 <= j <= k <= d.len(),
    ensures
        fold_super(d, j, n) is Unsupported ==> fold_super(d, k, n) is Unsupported,
        fold_super(d, j, n) matches Outcome::Absent(m) ==> fold_super(d, k, n) == Outcome::<VInfo>::Absent(m),
    decreases k,
{
    if j < k {
        lemma_fold_stops(d, j, (k - 1) as nat, n);
    }
}

/// The type of a number constant.
fn num_type(f: u64) -> (r: ScalarInfo)
    ensures
        r == num_info(f),
{
    if float_equals(f, 0) {
        ScalarInfo::Bool(Some(false))
    } else if float_equals(f, ONE) {
        ScalarInfo::Bool(Some(true))
    } else {
        match float_whole(f) {
            Some(v) => ScalarInfo::Int(Some(v), false),
            None => if f == POS_INFINITY {
                ScalarInfo::Int(Some(i64::MAX), true)
            } else if f == NEG_INFINITY {
                ScalarInfo::Int(Some(i64::MIN + 1), true)
            } else {
                ScalarInfo::Float(Some(f))
            },
        }
    }
}

impl ValueInfo {
    /// The type of a constant, numbering fresh shape variables from
    /// `*nvars`, or the error that an array's elements have no common type.
    pub fn try_from(value: &UValue, nvars: &mut usize) -> (r: Result<ValueInfo, UiuaValueError>)
        requires
            !(typing(*value, *old(nvars) as nat) is Unsupported),
        ensures
            typing(*value, *old(nvars) as nat) matches Typing::Typed(v, m) ==> (r matches Ok(x) && vinfo(x) == v
                && *final(nvars) == m),
            typing(*value, *old(nvars) as nat) matches Typing::NoType(m) ==> (r == Err::<ValueInfo, UiuaValueError>(
                UiuaValueError::NoArrayType,
            ) && *final(nvars) == m),
        decreases value,
    {
        match value {
            UValue::Byte(b) => Ok(
                ValueInfo::Scalar(
                    if *b <= 1 {
                        ScalarInfo::Bool(Some(*b == 1))
                    } else {
                        ScalarInfo::Int(Some(*b as i64), false)
                    },
                ),
            ),
            UValue::Num(f) => Ok(ValueInfo::Scalar(num_type(*f))),
            UValue::Char(c) => Ok(ValueInfo::Scalar(ScalarInfo::Char(Some(*c)))),
            UValue::Boxed(inner) => ValueInfo::try_from(inner, nvars),
            UValue::Complex => {
                // Complex numbers are not supported: `requires` rules them out.
                proof {
                    assert(false);
                }
                Err(UiuaValueError::NoArrayType)
            },
            UValue::Array(shape, elems) => {
                let ghost n0 = *nvars as nat;
                proof {
                    lemma_typing_all_stops(*value, 0, elems.len() as nat, n0);
                }
                let mut data: Vec<ValueInfo> = Vec::new();
                let mut i: usize = 0;
                while i < elems.len()
                    invariant
                        i <= elems.len(),
                        *value == UValue::Array(*shape, *elems),
                        n0 == *old(nvars) as nat,
                        !(typing(*value, n0) is Unsupported),
                        typing_all(*value, i as nat, n0) == Typing::Typed(values_view(data@), *nvars as nat),
                    decreases elems.len() - i,
                {
                    proof {
                        lemma_typing_all_stops(*value, (i + 1) as nat, elems.len() as nat, n0);
                    }
                    match ValueInfo::try_from(&elems[i], nvars) {
                        Ok(x) => {
                            let ghost before = data@;
                            data.push(x);
                            assert(data@.drop_last() =~= before);
                        },
                        Err(e) => {
                            return Err(e);
                        },
                    }
                    i = i + 1;
                }
                let ghost d = values_view(data@);
                let ghost n1 = *nvars as nat;
                proof {
                    lemma_values_view(data@);
                }
                if data.len() == 0 {
                    return Err(UiuaValueError::NoArrayType);
                }
                proof {
                    lemma_fold_stops(d, 1, d.len(), n1);
                }
                let mut acc = data[0].duplicate();
                let mut k: usize = 1;
                while k < data.len()
                    invariant
                        1 <= k <= data.len(),
                        n0 == *old(nvars) as nat,
                        d == values_view(data@),
                        d.len() == data.len(),
                        forall|j: int| 0 <= j < data.len() ==> #[trigger] d[j] == vinfo(data@[j]),
                        !(fold_super(d, d.len(), n1) is Unsupported),
                        fold_super(d, k as nat, n1) == Outcome::Found(vinfo(acc), *nvars as nat),
                        typing(*value, n0) == (match fold_super(d, d.len(), n1) {
                            Outcome::Found(et, m2) => {
                                let val = VInfo::Array(Box::new(AInfo::Known(et, shape@, d)));
                                match scalar_of(val) {
                                    Some(st) => if upcastable(val) {
                                        Typing::Typed(upcast(val, st), m2)
                                    } else {
                                        Typing::Unsupported
                                    },
                                    None => Typing::Typed(val, m2),
                                }
                            },
                            Outcome::Absent(m2) => Typing::NoType(m2),
                            Outcome::Unsupported => Typing::Unsupported,
                        }),
                    decreases data.len() - k,
                {
                    proof {
                        lemma_fold_stops(d, (k + 1) as nat, d.len(), n1);
                    }
                    match acc.supertype(&data[k], nvars) {
                        Some(x) => {
                            acc = x;
                        },
                        None => {
                            return Err(UiuaValueError::NoArrayType);
                        },
                    }
                    k = k + 1;
                }
                let ghost et = vinfo(acc);
                let sh = clone_usizes(shape);
                let a = ArrayInfo::Known { element_type: acc, value: ArrayValue { shape: sh, data } };
                assert(ainfo(a) == AInfo::Known(et, shape@, d));
                let mut val = ValueInfo::Array(Box::new(a));
                assert(vinfo(val) == VInfo::Array(Box::new(AInfo::Known(et, shape@, d))));
                match val.scalar_type() {
                    Some(st) => {
                        val.upcast_scalars(st);
                    },
                    None => {},
                }
                Ok(val)
            },
        }
    }
}

} // verus!
