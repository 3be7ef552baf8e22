//! Types at function calls: instantiating the variables of a callee's
//! output types in the caller.
use vstd::prelude::*;

use crate::mir::polynomial::instantiate::{cache_view, einst, einst_ok, Terms};
use crate::mir::polynomial::Expr;
use crate::analysis::error::ErrorKind;
use crate::tir::{
    ainfo, fsuper, lemma_values_view, mmatch, shape_view, substs_view, values_view, vinfo, AInfo, ArrayInfo, Binding,
    MapInfo, Outcome, Poly, VInfo, ValueInfo,
};
use std::collections::HashMap;

verus! {

/// The first `k` axes of a shape with their variables instantiated, one
/// after another, and the cache and counter after.
pub open spec fn shape_inst(s: Seq<Poly>, k: nat, c: Map<usize, Terms>, n: nat) -> (Seq<Poly>, Map<usize, Terms>, nat)
    decreases k,
{
    if k == 0 {
        (seq![], c, n)
    } else {
        let (p, c1, n1) = shape_inst(s, (k - 1) as nat, c, n);
        let (e, c2, n2) = einst(s[k - 1], c1, n1);
        (p.push(e), c2, n2)
    }
}

/// Instantiating every axis of a shape stays within the machine integers.
pub open spec fn shape_ok(s: Seq<Poly>, c: Map<usize, Terms>, n: nat) -> bool {
    forall|k: nat| k < s.len() ==> einst_ok(s[k as int], #[trigger] shape_inst(s, k, c, n).1, shape_inst(s, k, c, n).2)
}

/// A value type with the variables of its shapes instantiated: the element
/// type first, then the axes in order (the prefix before the suffix), the
/// key type before the value type. Known arrays and other types are kept.
pub open spec fn vinst(v: VInfo, c: Map<usize, Terms>, n: nat) -> (VInfo, Map<usize, Terms>, nat)
    decreases v,
{
    match v {
        VInfo::Array(a) => match *a {
            AInfo::Known(_, _, _) => (v, c, n),
            AInfo::Ranked(e, sh) => {
                let (e2, c1, n1) = vinst(e, c, n);
                let (sh2, c2, n2) = shape_inst(sh, sh.len(), c1, n1);
                (VInfo::Array(Box::new(AInfo::Ranked(e2, sh2))), c2, n2)
            },
            AInfo::Unranked(e, p, q) => {
                let (e2, c1, n1) = vinst(e, c, n);
                let (p2, c2, n2) = shape_inst(p, p.len(), c1, n1);
                let (q2, c3, n3) = shape_inst(q, q.len(), c2, n2);
                (VInfo::Array(Box::new(AInfo::Unranked(e2, p2, q2))), c3, n3)
            },
        },
        VInfo::Mapping(k, val) => {
            let (k2, c1, n1) = vinst(*k, c, n);
            let (v2, c2, n2) = vinst(*val, c1, n1);
            (VInfo::Mapping(Box::new(k2), Box::new(v2)), c2, n2)
        },
        _ => (v, c, n),
    }
}

/// Instantiating the variables of a value type stays within the machine
/// integers.
pub open spec fn vinst_ok(v: VInfo, c: Map<usize, Terms>, n: nat) -> bool
    decreases v,
{
    match v {
        VInfo::Array(a) => match *a {
            AInfo::Known(_, _, _) => true,
            AInfo::Ranked(e, sh) => vinst_ok(e, c, n) && {
                let (_, c1, n1) = vinst(e, c, n);
                shape_ok(sh, c1, n1)
            },
            AInfo::Unranked(e, p, q) => vinst_ok(e, c, n) && {
                let (_, c1, n1) = vinst(e, c, n);
                let (_, c2, n2) = shape_inst(p, p.len(), c1, n1);
                shape_ok(p, c1, n1) && shape_ok(q, c2, n2)
            },
        },
        VInfo::Mapping(k, val) => vinst_ok(*k, c, n) && {
            let (_, c1, n1) = vinst(*k, c, n);
            vinst_ok(*val, c1, n1)
        },
        _ => true,
    }
}

/// A shape with the variables of its axes instantiated.
fn inst_shape(shape: &Vec<Expr>, subst_cache: &mut HashMap<usize, Expr>, nvars: &mut usize) -> (r: Vec<Expr>)
    requires
        shape_ok(shape_view(shape@), cache_view(old(subst_cache)@), *old(nvars) as nat),
    ensures
        (shape_view(r@), cache_view(final(subst_cache)@), *final(nvars) as nat) == shape_inst(
            shape_view(shape@),
            shape@.len(),
            cache_view(old(subst_cache)@),
            *old(nvars) as nat,
        ),
{
    let ghost s = shape_view(shape@);
    let ghost c0 = cache_view(subst_cache@);
    let ghost n0 = *nvars as nat;
    let mut r: Vec<Expr> = Vec::new();
    let mut i: usize = 0;
    while i < shape.len()
        invariant
            i <= shape.len(),
            s == shape_view(shape@),
            shape_ok(s, c0, n0),
            (shape_view(r@), cache_view(subst_cache@), *nvars as nat) == shape_inst(s, i as nat, c0, n0),
        decreases shape.len() - i,
    {
        assert(s[i as int] == shape@[i as int]@);
        assert(einst_ok(s[i as int], shape_inst(s, i as nat, c0, n0).1, shape_inst(s, i as nat, c0, n0).2));
        let e = shape[i].instantiate_vars(subst_cache, nvars);
        let ghost before = r@;
        r.push(e);
        assert(shape_view(r@) =~= shape_view(before).push(e@));
        i = i + 1;
    }
    assert(s.len() == shape@.len());
    r
}

impl ValueInfo {
    /// This type with the variables of its shapes instantiated by
    /// `Expr::instantiate_vars`, sharing one cache and one counter, as the
    /// output types of a callee become types in the caller.
    pub fn instantiate_vars(&self, subst_cache: &mut HashMap<usize, Expr>, nvars: &mut usize) -> (r: Self)
        requires
            vinst_ok(vinfo(*self), cache_view(old(subst_cache)@), *old(nvars) as nat),
        ensures
            (vinfo(r), cache_view(final(subst_cache)@), *final(nvars) as nat) == vinst(
                vinfo(*self),
                cache_view(old(subst_cache)@),
                *old(nvars) as nat,
            ),
        decreases self,
    {
        match self {
            ValueInfo::Array(array) => {
                assert(vinfo(*self) == VInfo::Array(Box::new(ainfo(**array))));
                match &**array {
                    ArrayInfo::Known { .. } => {
                        let r = self.duplicate();
                        assert(vinst(vinfo(*self), cache_view(old(subst_cache)@), *old(nvars) as nat) == (vinfo(*self), cache_view(subst_cache@), *nvars as nat));
                        r
                    },
                    ArrayInfo::Ranked { element_type, shape } => {
                        assert(shape_view(shape@).len() == shape@.len());
                        let e = element_type.instantiate_vars(subst_cache, nvars);
                        let sh = inst_shape(shape, subst_cache, nvars);
                        let ghost ev = vinfo(e);
                        let ghost shv = shape_view(sh@);
                        let a = ArrayInfo::Ranked { element_type: e, shape: sh };
                        assert(ainfo(a) == AInfo::Ranked(ev, shv));
                        let r = ValueInfo::Array(Box::new(a));
                        assert(vinfo(r) == VInfo::Array(Box::new(AInfo::Ranked(ev, shv))));
                        r
                    },
                    ArrayInfo::Unranked { element_type, shape_prefix, shape_suffix } => {
                        assert(shape_view(shape_prefix@).len() == shape_prefix@.len());
                        assert(shape_view(shape_suffix@).len() == shape_suffix@.len());
                        let e = element_type.instantiate_vars(subst_cache, nvars);
                        let p = inst_shape(shape_prefix, subst_cache, nvars);
                        let q = inst_shape(shape_suffix, subst_cache, nvars);
                        let ghost ev = vinfo(e);
                        let ghost pv = shape_view(p@);
                        let ghost qv = shape_view(q@);
                        let a = ArrayInfo::Unranked { element_type: e, shape_prefix: p, shape_suffix: q };
                        assert(ainfo(a) == AInfo::Unranked(ev, pv, qv));
                        let r = ValueInfo::Array(Box::new(a));
                        assert(vinfo(r) == VInfo::Array(Box::new(AInfo::Unranked(ev, pv, qv))));
                        r
                    },
                }
            },
            ValueInfo::Mapping(map) => {
                let k = map.key_type.instantiate_vars(subst_cache, nvars);
                let v = map.value_type.instantiate_vars(subst_cache, nvars);
                let ghost kv = vinfo(k);
                let ghost vv = vinfo(v);
                let r = ValueInfo::Mapping(Box::new(MapInfo { key_type: k, value_type: v }));
                assert(vinfo(r) == VInfo::Mapping(Box::new(kv), Box::new(vv)));
                r
            },
            _ => self.duplicate(),
        }
    }
}


/// What a monomorphization is found by: the hash of its code and the input
/// types it was made for.
pub open spec fn mono_keys(bs: Seq<Binding>) -> Seq<(u64, Seq<VInfo>)> {
    bs.map_values(|b: Binding| (b.hash, values_view(b.func.meta.inputs@)))
}

/// The substitutions that let the first `k` argument types be passed as the
/// first `k` input types, in order, if each can be.
pub open spec fn all_match(t: Seq<VInfo>, f: Seq<VInfo>, k: nat) -> Option<Seq<(nat, Poly)>>
    decreases k,
{
    if k == 0 {
        Some(seq![])
    } else {
        match all_match(t, f, (k - 1) as nat) {
            None => None,
            Some(p) => match mmatch(t[k - 1], f[k - 1]) {
                Some(q) => Some(p + q),
                None => None,
            },
        }
    }
}

/// The substitutions that let argument types be passed to a function made
/// for input types `f`, if there are as many and each can be.
pub open spec fn inputs_match(t: Seq<VInfo>, f: Seq<VInfo>) -> Option<Seq<(nat, Poly)>> {
    if t.len() == f.len() {
        all_match(t, f, t.len())
    } else {
        None
    }
}

/// The first monomorphization from the `i`-th on with the hash `hash` that
/// the argument types can be passed to, with the substitutions found.
pub open spec fn find_from(bs: Seq<(u64, Seq<VInfo>)>, hash: u64, ins: Seq<VInfo>, i: nat) -> Option<
    (nat, Seq<(nat, Poly)>),
>
    decreases bs.len() - i,
{
    if i >= bs.len() {
        None
    } else if bs[i as int].0 == hash && inputs_match(ins, bs[i as int].1) is Some {
        Some((i, inputs_match(ins, bs[i as int].1)->Some_0))
    } else {
        find_from(bs, hash, ins, i + 1)
    }
}

/// The substitutions that let each argument type be passed as the input type
/// at its position.
fn inputs_substs(t: &Vec<ValueInfo>, f: &Vec<ValueInfo>) -> (r: Option<Vec<(usize, Expr)>>)
    requires
        t.len() == f.len(),
    ensures
        r is Some <==> inputs_match(values_view(t@), values_view(f@)) is Some,
        r matches Some(v) ==> inputs_match(values_view(t@), values_view(f@)) == Some(substs_view(v@)),
{
    proof {
        lemma_values_view(t@);
        lemma_values_view(f@);
    }
    let ghost tv = values_view(t@);
    let ghost fv = values_view(f@);
    let mut out: Vec<(usize, Expr)> = Vec::new();
    assert(substs_view(out@) =~= Seq::<(nat, Poly)>::empty());
    let mut k: usize = 0;
    while k < t.len()
        invariant
            k <= t.len(),
            t.len() == f.len(),
            tv == values_view(t@),
            fv == values_view(f@),
            tv.len() == t.len(),
            fv.len() == f.len(),
            forall|j: int| 0 <= j < t.len() ==> #[trigger] tv[j] == vinfo(t@[j]),
            forall|j: int| 0 <= j < f.len() ==> #[trigger] fv[j] == vinfo(f@[j]),
            all_match(tv, fv, k as nat) == Some(substs_view(out@)),
        decreases t.len() - k,
    {
        match t[k].match_monomorphization(&f[k]) {
            Some(q) => {
                let ghost before = out@;
                let mut q = q;
                let ghost qv = q@;
                out.append(&mut q);
                assert(substs_view(out@) =~= substs_view(before) + substs_view(qv)) by {
                    assert(out@ =~= before + qv);
                }
            },
            None => {
                proof {
                    lemma_all_match_stops(tv, fv, (k + 1) as nat, tv.len());
                }
                return None;
            },
        }
        k = k + 1;
    }
    Some(out)
}

proof fn lemma_all_match_stops(t: Seq<VInfo>, f: Seq<VInfo>, j: nat, k: nat)
    requires
        j <= k,
        all_match(t, f, j) is None,
    ensures
        all_match(t, f, k) is None,
    decreases k,
{
    if j < k {
        lemma_all_match_stops(t, f, j, (k - 1) as nat);
    }
}

/// The first monomorphization of a function, among `bindings` in order, that
/// has the hash `hash` and can take arguments of the types `input_infos`;
/// with its position and the substitutions that make its input types those
/// of the arguments.
pub fn find_monomorphization(bindings: &Vec<Binding>, hash: u64, input_infos: &Vec<ValueInfo>) -> (r: Option<
    (usize, Vec<(usize, Expr)>),
>)
    ensures
        find_from(mono_keys(bindings@), hash, values_view(input_infos@), 0) matches Some((i, p)) ==> (r matches Some(
            (j, v),
        ) && j == i && substs_view(v@) == p),
        find_from(mono_keys(bindings@), hash, values_view(input_infos@), 0) is None ==> r is None,
{
    let ghost keys = mono_keys(bindings@);
    let ghost ins = values_view(input_infos@);
    proof {
        lemma_values_view(input_infos@);
    }
    let mut i: usize = 0;
    while i < bindings.len()
        invariant
            i <= bindings.len(),
            keys == mono_keys(bindings@),
            ins == values_view(input_infos@),
            ins.len() == input_infos.len(),
            find_from(keys, hash, ins, 0) == find_from(keys, hash, ins, i as nat),
        decreases bindings.len() - i,
    {
        let b = &bindings[i];
        proof {
            lemma_values_view(b.func.meta.inputs@);
        }
        assert(keys[i as int] == (b.hash, values_view(b.func.meta.inputs@)));
        if b.hash == hash && b.func.meta.inputs.len() == input_infos.len() {
            match inputs_substs(input_infos, &b.func.meta.inputs) {
                Some(v) => {
                    return Some((i, v));
                },
                None => {},
            }
        }
        i = i + 1;
    }
    None
}

/// The call supertypes of the first `k` argument types, in order, with the
/// substitutions of each appended in turn.
pub open spec fn all_fsuper(ins: Seq<VInfo>, k: nat, n: nat) -> Outcome<(Seq<VInfo>, Seq<(nat, Poly)>)>
    decreases k,
{
    if k == 0 {
        Outcome::Found((seq![], seq![]), n)
    } else {
        match all_fsuper(ins, (k - 1) as nat, n) {
            Outcome::Found((fs, p), m) => match fsuper(ins[k - 1], m) {
                Outcome::Found((f, q), m2) => Outcome::Found((fs.push(f), p + q), m2),
                Outcome::Absent(m2) => Outcome::Absent(m2),
                Outcome::Unsupported => Outcome::Unsupported,
            },
            other => other,
        }
    }
}

proof fn lemma_all_fsuper_stops(ins: Seq<VInfo>, j: nat, k: nat, n: nat)
    requires
        j <= k,
    ensures
        all_fsuper(ins, j, n) is Unsupported ==> all_fsuper(ins, k, n) is Unsupported,
        all_fsuper(ins, j, n) matches Outcome::Absent(m) ==> all_fsuper(ins, k, n) == Outcome::<
            (Seq<VInfo>, Seq<(nat, Poly)>),
        >::Absent(m),
    decreases k,
{
    if j < k {
        lemma_all_fsuper_stops(ins, j, (k - 1) as nat, n);
    }
}

/// The input types to monomorphize a called function for, one per argument,
/// with the substitutions that give back the arguments' axes; or the error
/// that an argument is an array of unknown rank.
pub fn call_input_types(input_infos: &Vec<ValueInfo>, nvars: &mut usize) -> (r: Result<
    (Vec<ValueInfo>, Vec<(usize, Expr)>),
    ErrorKind,
>)
    requires
        !(all_fsuper(values_view(input_infos@), input_infos@.len(), *old(nvars) as nat) is Unsupported),
    ensures
        all_fsuper(values_view(input_infos@), input_infos@.len(), *old(nvars) as nat) matches Outcome::Found(
            (fs, p),
            m,
        ) ==> (r matches Ok((v, q)) && values_view(v@) == fs && substs_view(q@) == p && *final(nvars) == m),
        all_fsuper(values_view(input_infos@), input_infos@.len(), *old(nvars) as nat) matches Outcome::Absent(m)
            ==> (r == Err::<(Vec<ValueInfo>, Vec<(usize, Expr)>), ErrorKind>(ErrorKind::Unranked("function call"))
            && *final(nvars) == m),
{
    let ghost ins = values_view(input_infos@);
    let ghost n0 = *nvars as nat;
    proof {
        lemma_values_view(input_infos@);
        lemma_all_fsuper_stops(ins, 0, ins.len(), n0);
    }
    let mut types: Vec<ValueInfo> = Vec::new();
    let mut substs: Vec<(usize, Expr)> = Vec::new();
    assert(values_view(types@) =~= Seq::<VInfo>::empty());
    assert(substs_view(substs@) =~= Seq::<(nat, Poly)>::empty());
    let mut k: usize = 0;
    while k < input_infos.len()
        invariant
            k <= input_infos.len(),
            ins == values_view(input_infos@),
            ins.len() == input_infos.len(),
            forall|j: int| 0 <= j < input_infos.len() ==> #[trigger] ins[j] == vinfo(input_infos@[j]),
            n0 == *old(nvars) as nat,
            !(all_fsuper(ins, ins.len(), n0) is Unsupported),
            all_fsuper(ins, k as nat, n0) == Outcome::Found((values_view(types@), substs_view(substs@)), *nvars as nat),
        decreases input_infos.len() - k,
    {
        proof {
            lemma_all_fsuper_stops(ins, (k + 1) as nat, ins.len(), n0);
        }
        match input_infos[k].func_supertype(nvars) {
            Some((t, q)) => {
                let ghost before_t = types@;
                let ghost before_s = substs@;
                types.push(t);
                assert(types@.drop_last() =~= before_t);
                let mut q = q;
                let ghost qv = q@;
                substs.append(&mut q);
                assert(substs_view(substs@) =~= substs_view(before_s) + substs_view(qv)) by {
                    assert(substs@ =~= before_s + qv);
                }
            },
            None => {
                return Err(ErrorKind::Unranked("function call"));
            },
        }
        k = k + 1;
    }
    Ok((types, substs))
}

/// The substitutions as a map, a later one for a variable replacing an
/// earlier one.
pub open spec fn substs_map(s: Seq<(nat, Poly)>, k: nat) -> Map<usize, Terms>
    decreases k,
{
    if k == 0 || k > s.len() {
        Map::empty()
    } else {
        substs_map(s, (k - 1) as nat).insert(s[k - 1].0 as usize, s[k - 1].1)
    }
}

/// A substitution cache holding the substitutions, a later one for a
/// variable replacing an earlier one.
pub fn subst_cache(substs: &Vec<(usize, Expr)>) -> (r: HashMap<usize, Expr>)
    ensures
        cache_view(r@) == substs_map(substs_view(substs@), substs@.len()),
{
    let ghost sv = substs_view(substs@);
    let mut cache: HashMap<usize, Expr> = HashMap::new();
    assert(cache_view(cache@) =~= Map::<usize, Terms>::empty());
    let mut i: usize = 0;
    while i < substs.len()
        invariant
            i <= substs.len(),
            sv == substs_view(substs@),
            sv.len() == substs.len(),
            cache_view(cache@) == substs_map(sv, i as nat),
        decreases substs.len() - i,
    {
        let k = substs[i].0;
        let e = substs[i].1.duplicate();
        assert(sv[i as int] == (k as nat, e@));
        cache.insert(k, e);
        assert(cache_view(cache@) =~= substs_map(sv, (i + 1) as nat));
        i = i + 1;
    }
    cache
}

/// The first `k` output types with their variables instantiated, one after
/// another, and the cache and counter after.
pub open spec fn outs_inst(outs: Seq<VInfo>, k: nat, c: Map<usize, Terms>, n: nat) -> (Seq<VInfo>, Map<usize, Terms>, nat)
    decreases k,
{
    if k == 0 {
        (seq![], c, n)
    } else {
        let (p, c1, n1) = outs_inst(outs, (k - 1) as nat, c, n);
        let (v, c2, n2) = vinst(outs[k - 1], c1, n1);
        (p.push(v), c2, n2)
    }
}

/// Instantiating every output type stays within the machine integers.
pub open spec fn outs_ok(outs: Seq<VInfo>, c: Map<usize, Terms>, n: nat) -> bool {
    forall|k: nat| k < outs.len() ==> vinst_ok(outs[k as int], #[trigger] outs_inst(outs, k, c, n).1, outs_inst(outs, k, c, n).2)
}

/// The output types of a called function as types in the caller: each with
/// its variables instantiated, in order, sharing the cache and counter.
pub fn instantiate_outputs(outputs: &Vec<ValueInfo>, subst_cache: &mut HashMap<usize, Expr>, nvars: &mut usize) -> (r:
    Vec<ValueInfo>)
    requires
        outs_ok(values_view(outputs@), cache_view(old(subst_cache)@), *old(nvars) as nat),
    ensures
        (values_view(r@), cache_view(final(subst_cache)@), *final(nvars) as nat) == outs_inst(
            values_view(outputs@),
            outputs@.len(),
            cache_view(old(subst_cache)@),
            *old(nvars) as nat,
        ),
{
    let ghost outs = values_view(outputs@);
    let ghost c0 = cache_view(subst_cache@);
    let ghost n0 = *nvars as nat;
    proof {
        lemma_values_view(outputs@);
    }
    let mut r: Vec<ValueInfo> = Vec::new();
    assert(values_view(r@) =~= Seq::<VInfo>::empty());
    let mut i: usize = 0;
    while i < outputs.len()
        invariant
            i <= outputs.len(),
            outs == values_view(outputs@),
            outs.len() == outputs.len(),
            forall|j: int| 0 <= j < outputs.len() ==> #[trigger] outs[j] == vinfo(outputs@[j]),
            outs_ok(outs, c0, n0),
            (values_view(r@), cache_view(subst_cache@), *nvars as nat) == outs_inst(outs, i as nat, c0, n0),
        decreases outputs.len() - i,
    {
        assert(vinst_ok(outs[i as int], outs_inst(outs, i as nat, c0, n0).1, outs_inst(outs, i as nat, c0, n0).2));
        let v = outputs[i].instantiate_vars(subst_cache, nvars);
        let ghost before = r@;
        r.push(v);
        assert(r@.drop_last() =~= before);
        i = i + 1;
    }
    r
}

} // verus!
