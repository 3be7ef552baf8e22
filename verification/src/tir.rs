//! Typed IR: the value-type lattice that static analysis assigns to the
//! values of a program.
use vstd::prelude::*;

use crate::mir::polynomial::{const_of, const_terms, single_var_of, var_mono, vars_below, Expr};
use crate::float::{
    float_eq, float_equals, float_is_infinite, float_to_whole, int_to_float, int_to_float_bits, is_infinite, whole_int,
    Rounding, NEG_INFINITY, POS_INFINITY,
};
use crate::text::{ascii_digits, decimal, encode_digits, push_char, push_encoded};
use vstd::string::StringExecFns;

verus! {

/// A canonical polynomial term list (the view of an `Expr`).
pub type Poly = Seq<(Seq<u32>, int)>;

/// What is known of a scalar. Floating-point values are held as the bits of
/// an IEEE 754 double.
#[derive(Clone, Copy, Debug)]
pub enum ScalarInfo {
    Bool(Option<bool>),
    /// The flag records whether this may be integer-or-infinity, with
    /// `i64::MAX` standing for infinity and `i64::MIN + 1` for negative
    /// infinity.
    Int(Option<i64>, bool),
    Float(Option<u64>),
    Char(Option<char>),
}

/// An array whose shape and elements are known at compile time.
#[derive(Debug)]
pub struct ArrayValue {
    pub shape: Vec<usize>,
    pub data: Vec<ValueInfo>,
}

/// What is known of an array.
#[derive(Debug)]
pub enum ArrayInfo {
    /// Exact value known at compile time
    Known { element_type: ValueInfo, value: ArrayValue },
    /// Rank known at compile time
    Ranked { element_type: ValueInfo, shape: Vec<Expr> },
    /// Rank not known at compile time: only a prefix and a suffix of the shape
    Unranked { element_type: ValueInfo, shape_prefix: Vec<Expr>, shape_suffix: Vec<Expr> },
}

#[derive(Debug)]
pub struct MapInfo {
    pub key_type: ValueInfo,
    pub value_type: ValueInfo,
}

#[derive(Debug)]
pub struct StructInfo {
    pub fields: Vec<(String, ValueInfo)>,
}

#[derive(Debug)]
pub struct EnumInfo {
    pub variants: Vec<(String, StructInfo)>,
}

/// An operation that typed IR adds to a function besides its primitives.
#[derive(Clone, Copy, Debug)]
pub enum TirOp {
    /// Casts a number from one scalar type to another.
    CastNum { from: ScalarInfo, to: ScalarInfo },
    /// Checks that axis `ax_i` of the array `depth` levels down has length
    /// `length`.
    CheckAxis { depth: usize, ax_i: usize, length: usize },
    /// Checks that an axis of one input has the length of an axis of another.
    CheckAxes { lhs_depth: usize, lhs_ax_i: usize, rhs_depth: usize, rhs_ax_i: usize },
}

/// A named structure type.
pub struct Struct {
    pub name: String,
    pub info: StructInfo,
}

/// A named enumeration type.
pub struct Enum {
    pub name: String,
    pub info: EnumInfo,
}

/// A primitive of the language or one of its implementation primitives.
#[derive(Clone, Copy, Debug)]
pub enum Prim {
    Prim(crate::hir::Prim),
    Impl(crate::hir::ImplPrim),
}

/// A node of a typed function.
pub enum Node {
    Input,
    Output,
    Constant(ValueInfo),
    FuncPrim(Prim),
    TirOp(TirOp),
    ModPrim(Prim, Vec<Function>),
    Call(usize),
}

impl crate::generic_ir::FunctionNode for Node {
    open spec fn input_node(&self) -> bool {
        self is Input
    }

    open spec fn output_node(&self) -> bool {
        self is Output
    }

    open spec fn the_input() -> Self {
        Node::Input
    }

    open spec fn the_output() -> Self {
        Node::Output
    }

    fn is_input(&self) -> (r: bool) {
        matches!(self, Node::Input)
    }

    fn is_output(&self) -> (r: bool) {
        matches!(self, Node::Output)
    }

    fn input() -> (r: Self) {
        Node::Input
    }

    fn output() -> (r: Self) {
        Node::Output
    }
}

/// The types of a typed function's inputs and outputs.
pub struct FunctionMeta {
    pub inputs: Vec<ValueInfo>,
    pub outputs: Vec<ValueInfo>,
}

/// A typed function: each node holds the types of its outputs.
pub type Function = crate::generic_ir::Function<FunctionMeta, Node, Vec<ValueInfo>>;

/// A monomorphization of a bound function: the code span and function id
/// it comes from, the hash of that code, and the typed function.
pub struct Binding {
    pub span: usize,
    pub func_id: usize,
    pub hash: u64,
    pub func: Function,
}

/// A typed program.
pub struct Tir {
    pub structs: Vec<Struct>,
    pub enums: Vec<Enum>,
    pub bindings: Vec<Binding>,
    pub main: Option<(Function, usize)>,
    /// The program's table of code spans, which spans index, as text.
    pub spans: Vec<String>,
    /// The program's source files: each path, as text, with its contents.
    pub files: Vec<(String, String)>,
}

/// What static analysis knows of a value.
#[derive(Debug)]
pub enum ValueInfo {
    Scalar(ScalarInfo),
    Array(Box<ArrayInfo>),
    Mapping(Box<MapInfo>),
    Struct(StructInfo),
    Enum(EnumInfo),
}

/// The mathematical view of a `ValueInfo`.
pub enum VInfo {
    Scalar(ScalarInfo),
    Array(Box<AInfo>),
    Mapping(Box<VInfo>, Box<VInfo>),
    Struct(Seq<(Seq<char>, VInfo)>),
    Enum(Seq<(Seq<char>, Seq<(Seq<char>, VInfo)>)>),
}

/// The mathematical view of an `ArrayInfo`.
pub enum AInfo {
    Known(VInfo, Seq<usize>, Seq<VInfo>),
    Ranked(VInfo, Seq<Poly>),
    Unranked(VInfo, Seq<Poly>, Seq<Poly>),
}

pub open spec fn shape_view(s: Seq<Expr>) -> Seq<Poly> {
    s.map_values(|e: Expr| e@)
}

pub open spec fn vinfo(v: ValueInfo) -> VInfo
    decreases v,
{
    match v {
        ValueInfo::Scalar(s) => VInfo::Scalar(s),
        ValueInfo::Array(a) => VInfo::Array(Box::new(ainfo(*a))),
        ValueInfo::Mapping(m) => VInfo::Mapping(Box::new(vinfo(m.key_type)), Box::new(vinfo(m.value_type))),
        ValueInfo::Struct(s) => VInfo::Struct(fields_view(s.fields@)),
        ValueInfo::Enum(e) => VInfo::Enum(variants_view(e.variants@)),
    }
}

pub open spec fn ainfo(a: ArrayInfo) -> AInfo
    decreases a,
{
    match a {
        ArrayInfo::Known { element_type, value } => AInfo::Known(
            vinfo(element_type),
            value.shape@,
            values_view(value.data@),
        ),
        ArrayInfo::Ranked { element_type, shape } => AInfo::Ranked(vinfo(element_type), shape_view(shape@)),
        ArrayInfo::Unranked { element_type, shape_prefix, shape_suffix } => AInfo::Unranked(
            vinfo(element_type),
            shape_view(shape_prefix@),
            shape_view(shape_suffix@),
        ),
    }
}

pub open spec fn values_view(s: Seq<ValueInfo>) -> Seq<VInfo>
    decreases s,
{
    if s.len() == 0 {
        seq![]
    } else {
        values_view(s.drop_last()).push(vinfo(s.last()))
    }
}

pub open spec fn fields_view(s: Seq<(String, ValueInfo)>) -> Seq<(Seq<char>, VInfo)>
    decreases s,
{
    if s.len() == 0 {
        seq![]
    } else {
        fields_view(s.drop_last()).push((s.last().0@, vinfo(s.last().1)))
    }
}

pub open spec fn variants_view(s: Seq<(String, StructInfo)>) -> Seq<(Seq<char>, Seq<(Seq<char>, VInfo)>)>
    decreases s,
{
    if s.len() == 0 {
        seq![]
    } else {
        variants_view(s.drop_last()).push((s.last().0@, fields_view(s.last().1.fields@)))
    }
}


pub proof fn lemma_values_view(s: Seq<ValueInfo>)
    ensures
        values_view(s).len() == s.len(),
        forall|i: int| 0 <= i < s.len() ==> #[trigger] values_view(s)[i] == vinfo(s[i]),
    decreases s.len(),
{
    if s.len() > 0 {
        lemma_values_view(s.drop_last());
        assert forall|i: int| 0 <= i < s.len() implies #[trigger] values_view(s)[i] == vinfo(s[i]) by {
            if i < s.len() - 1 {
                assert(s.drop_last()[i] == s[i]);
            }
        }
    }
}

pub proof fn lemma_fields_view(s: Seq<(String, ValueInfo)>)
    ensures
        fields_view(s).len() == s.len(),
        forall|i: int| 0 <= i < s.len() ==> #[trigger] fields_view(s)[i] == (s[i].0@, vinfo(s[i].1)),
    decreases s.len(),
{
    if s.len() > 0 {
        lemma_fields_view(s.drop_last());
        assert forall|i: int| 0 <= i < s.len() implies #[trigger] fields_view(s)[i] == (s[i].0@, vinfo(s[i].1)) by {
            if i < s.len() - 1 {
                assert(s.drop_last()[i] == s[i]);
            }
        }
    }
}

pub proof fn lemma_variants_view(s: Seq<(String, StructInfo)>)
    ensures
        variants_view(s).len() == s.len(),
        forall|i: int| 0 <= i < s.len() ==> #[trigger] variants_view(s)[i] == (s[i].0@, fields_view(s[i].1.fields@)),
    decreases s.len(),
{
    if s.len() > 0 {
        lemma_variants_view(s.drop_last());
        assert forall|i: int| 0 <= i < s.len() implies #[trigger] variants_view(s)[i] == (s[i].0@, fields_view(s[i].1.fields@)) by {
            if i < s.len() - 1 {
                assert(s.drop_last()[i] == s[i]);
            }
        }
    }
}

/// Copies a string.
pub(crate) fn copy_string(s: &String) -> (r: String)
    ensures
        r@ == s@,
{
    s.clone()
}

/// Copies a shape.
pub fn clone_shape(s: &Vec<Expr>) -> (r: Vec<Expr>)
    ensures
        shape_view(r@) == shape_view(s@),
{
    let mut r: Vec<Expr> = Vec::new();
    let mut i: usize = 0;
    while i < s.len()
        invariant
            i <= s.len(),
            shape_view(r@) =~= shape_view(s@).take(i as int),
        decreases s.len() - i,
    {
        let e = s[i].duplicate();
        let ghost before = r@;
        r.push(e);
        assert(r@ == before.push(e));
        assert(shape_view(r@) =~= shape_view(before).push(e@));
        assert(shape_view(s@)[i as int] == s@[i as int]@);
        assert(shape_view(s@).take(i + 1) =~= shape_view(s@).take(i as int).push(shape_view(s@)[i as int]));
        i = i + 1;
    }
    assert(shape_view(s@).take(i as int) =~= shape_view(s@));
    r
}

pub(crate) fn clone_usizes(s: &Vec<usize>) -> (r: Vec<usize>)
    ensures
        r@ == s@,
{
    let mut r: Vec<usize> = Vec::new();
    let mut i: usize = 0;
    while i < s.len()
        invariant
            i <= s.len(),
            r@ =~= s@.take(i as int),
        decreases s.len() - i,
    {
        r.push(s[i]);
        i = i + 1;
        assert(r@ =~= s@.take(i as int));
    }
    assert(s@.take(i as int) =~= s@);
    r
}

impl ValueInfo {
    /// A deep copy.
    pub fn duplicate(&self) -> (r: Self)
        ensures
            vinfo(r) == vinfo(*self),
        decreases self,
    {
        match self {
            ValueInfo::Scalar(s) => ValueInfo::Scalar(*s),
            ValueInfo::Array(a) => ValueInfo::Array(Box::new(a.duplicate())),
            ValueInfo::Mapping(m) => ValueInfo::Mapping(
                Box::new(MapInfo { key_type: m.key_type.duplicate(), value_type: m.value_type.duplicate() }),
            ),
            ValueInfo::Struct(st) => ValueInfo::Struct(st.duplicate()),
            ValueInfo::Enum(e) => ValueInfo::Enum(e.duplicate()),
        }
    }
}

impl EnumInfo {
    /// A deep copy.
    pub fn duplicate(&self) -> (r: Self)
        ensures
            variants_view(r.variants@) == variants_view(self.variants@),
        decreases self,
    {
        let mut variants: Vec<(String, StructInfo)> = Vec::new();
        let mut i: usize = 0;
        while i < self.variants.len()
            invariant
                i <= self.variants.len(),
                variants_view(variants@) == variants_view(self.variants@.take(i as int)),
            decreases self.variants.len() - i,
        {
            let name = copy_string(&self.variants[i].0);
            let st = self.variants[i].1.duplicate();
            let ghost before = variants@;
            variants.push((name, st));
            proof {
                assert(variants@.drop_last() =~= before);
                assert(self.variants@.take(i + 1).drop_last() =~= self.variants@.take(i as int));
            }
            i = i + 1;
        }
        assert(self.variants@.take(i as int) =~= self.variants@);
        EnumInfo { variants }
    }
}

impl StructInfo {
    /// A deep copy.
    pub fn duplicate(&self) -> (r: Self)
        ensures
            fields_view(r.fields@) == fields_view(self.fields@),
        decreases self,
    {
        let mut fields: Vec<(String, ValueInfo)> = Vec::new();
        let mut i: usize = 0;
        while i < self.fields.len()
            invariant
                i <= self.fields.len(),
                fields_view(fields@) == fields_view(self.fields@.take(i as int)),
            decreases self.fields.len() - i,
        {
            let name = copy_string(&self.fields[i].0);
            let v = self.fields[i].1.duplicate();
            let ghost before = fields@;
            fields.push((name, v));
            proof {
                assert(fields@.drop_last() =~= before);
                assert(self.fields@.take(i + 1).drop_last() =~= self.fields@.take(i as int));
            }
            i = i + 1;
        }
        assert(self.fields@.take(i as int) =~= self.fields@);
        StructInfo { fields }
    }
}

/// Copies a list of value infos.
pub fn clone_values(s: &Vec<ValueInfo>) -> (r: Vec<ValueInfo>)
    ensures
        values_view(r@) == values_view(s@),
{
    let mut r: Vec<ValueInfo> = Vec::new();
    let mut i: usize = 0;
    while i < s.len()
        invariant
            i <= s.len(),
            values_view(r@) == values_view(s@.take(i as int)),
        decreases s.len() - i,
    {
        let v = s[i].duplicate();
        let ghost before = r@;
        r.push(v);
        proof {
            assert(r@.drop_last() =~= before);
            assert(s@.take(i + 1).drop_last() =~= s@.take(i as int));
        }
        i = i + 1;
    }
    assert(s@.take(i as int) =~= s@);
    r
}

impl ArrayInfo {
    /// A deep copy.
    pub fn duplicate(&self) -> (r: Self)
        ensures
            ainfo(r) == ainfo(*self),
        decreases self,
    {
        match self {
            ArrayInfo::Known { element_type, value } => ArrayInfo::Known {
                element_type: element_type.duplicate(),
                value: ArrayValue { shape: clone_usizes(&value.shape), data: clone_values_rec(&value.data) },
            },
            ArrayInfo::Ranked { element_type, shape } => ArrayInfo::Ranked {
                element_type: element_type.duplicate(),
                shape: clone_shape(shape),
            },
            ArrayInfo::Unranked { element_type, shape_prefix, shape_suffix } => ArrayInfo::Unranked {
                element_type: element_type.duplicate(),
                shape_prefix: clone_shape(shape_prefix),
                shape_suffix: clone_shape(shape_suffix),
            },
        }
    }
}

fn clone_values_rec(s: &Vec<ValueInfo>) -> (r: Vec<ValueInfo>)
    ensures
        values_view(r@) == values_view(s@),
    decreases s,
{
    let mut r: Vec<ValueInfo> = Vec::new();
    let mut i: usize = 0;
    while i < s.len()
        invariant
            i <= s.len(),
            values_view(r@) == values_view(s@.take(i as int)),
        decreases s.len() - i,
    {
        let v = s[i].duplicate();
        let ghost before = r@;
        r.push(v);
        proof {
            assert(r@.drop_last() =~= before);
            assert(s@.take(i + 1).drop_last() =~= s@.take(i as int));
        }
        i = i + 1;
    }
    assert(s@.take(i as int) =~= s@);
    r
}


/// The scalar type at the bottom of a value: the element type of an array,
/// the value type of a map, or none for structures and enums.
pub open spec fn scalar_of(v: VInfo) -> Option<ScalarInfo>
    decreases v,
{
    match v {
        VInfo::Scalar(s) => Some(s),
        VInfo::Array(a) => match *a {
            AInfo::Known(e, _, _) => scalar_of(e),
            AInfo::Ranked(e, _) => scalar_of(e),
            AInfo::Unranked(e, _, _) => scalar_of(e),
        },
        VInfo::Mapping(_, val) => scalar_of(*val),
        _ => None,
    }
}

/// The element type of an array.
pub open spec fn elem_of(a: AInfo) -> VInfo {
    match a {
        AInfo::Known(e, _, _) => e,
        AInfo::Ranked(e, _) => e,
        AInfo::Unranked(e, _, _) => e,
    }
}

/// Writing a scalar type at the bottom of a value and reading it back gives
/// the written one, where the value has a scalar type at its bottom; and the
/// value still has one.
pub proof fn lemma_scalar_read_back(v: VInfo, s: ScalarInfo)
    requires
        scalar_of(v) is Some,
    ensures
        scalar_of(with_scalar(v, s)) == Some(s),
    decreases v,
{
    match v {
        VInfo::Array(a) => match *a {
            AInfo::Known(e, sh, d) => {
                lemma_scalar_read_back(e, s);
                assert(a_with_scalar(*a, s) == AInfo::Known(with_scalar(e, s), sh, d));
            },
            AInfo::Ranked(e, sh) => {
                lemma_scalar_read_back(e, s);
                assert(a_with_scalar(*a, s) == AInfo::Ranked(with_scalar(e, s), sh));
            },
            AInfo::Unranked(e, p, q) => {
                lemma_scalar_read_back(e, s);
                assert(a_with_scalar(*a, s) == AInfo::Unranked(with_scalar(e, s), p, q));
            },
        },
        VInfo::Mapping(_, val) => lemma_scalar_read_back(*val, s),
        _ => {},
    }
}

/// The value with the scalar type at its bottom replaced by `s`.
pub open spec fn with_scalar(v: VInfo, s: ScalarInfo) -> VInfo
    decreases v,
{
    match v {
        VInfo::Scalar(_) => VInfo::Scalar(s),
        VInfo::Array(a) => VInfo::Array(Box::new(a_with_scalar(*a, s))),
        VInfo::Mapping(k, val) => VInfo::Mapping(k, Box::new(with_scalar(*val, s))),
        _ => v,
    }
}

/// The array with the scalar type at the bottom of its elements replaced by `s`.
pub open spec fn a_with_scalar(a: AInfo, s: ScalarInfo) -> AInfo
    decreases a,
{
    match a {
        AInfo::Known(e, sh, d) => AInfo::Known(with_scalar(e, s), sh, d),
        AInfo::Ranked(e, sh) => AInfo::Ranked(with_scalar(e, s), sh),
        AInfo::Unranked(e, p, q) => AInfo::Unranked(with_scalar(e, s), p, q),
    }
}

/// The name of a scalar type.
pub open spec fn scalar_name(s: ScalarInfo) -> Seq<char> {
    match s {
        ScalarInfo::Bool(_) => "boolean"@,
        ScalarInfo::Int(_, maybe_inf) => if maybe_inf { "integer-or-infinity"@ } else { "integer"@ },
        ScalarInfo::Float(_) => "float"@,
        ScalarInfo::Char(_) => "character"@,
    }
}

impl ScalarInfo {
    /// The name of this scalar type, as shown in error messages.
    pub fn type_label(&self) -> (r: &'static str)
        ensures
            r@ == scalar_name(*self),
    {
        match self {
            ScalarInfo::Bool(_) => "boolean",
            ScalarInfo::Int(_, maybe_inf) => {
                if *maybe_inf {
                    "integer-or-infinity"
                } else {
                    "integer"
                }
            },
            ScalarInfo::Float(_) => "float",
            ScalarInfo::Char(_) => "character",
        }
    }
}

impl ValueInfo {
    /// The scalar type at the bottom of this value, if there is one.
    pub fn scalar_type(&self) -> (r: Option<ScalarInfo>)
        ensures
            r == scalar_of(vinfo(*self)),
        decreases self,
    {
        match self {
            ValueInfo::Scalar(scalar) => Some(*scalar),
            ValueInfo::Array(array) => array.scalar_type(),
            ValueInfo::Mapping(map) => map.value_type.scalar_type(),
            _ => None,
        }
    }

    /// A mutable reference to the scalar type at the bottom of this value.
    pub fn scalar_type_mut(&mut self) -> (r: Option<&mut ScalarInfo>)
        ensures
            r is None <==> scalar_of(vinfo(*old(self))) is None,
            r matches Some(x) ==> Some(*x) == scalar_of(vinfo(*old(self))),
            r matches Some(x) ==> vinfo(*final(self)) == with_scalar(vinfo(*old(self)), *final(x)),
            r is None ==> *final(self) == *old(self),
        decreases *old(self),
    {
        match self {
            ValueInfo::Scalar(scalar) => Some(scalar),
            ValueInfo::Array(array) => array.scalar_type_mut(),
            ValueInfo::Mapping(map) => map.value_type.scalar_type_mut(),
            _ => None,
        }
    }
}

impl ArrayInfo {
    /// The element type of this array.
    pub fn element_type(&self) -> (r: &ValueInfo)
        ensures
            vinfo(*r) == elem_of(ainfo(*self)),
    {
        match self {
            ArrayInfo::Known { element_type, .. } => element_type,
            ArrayInfo::Ranked { element_type, .. } => element_type,
            ArrayInfo::Unranked { element_type, .. } => element_type,
        }
    }

    /// The scalar type at the bottom of this array's elements.
    pub fn scalar_type(&self) -> (r: Option<ScalarInfo>)
        ensures
            r == scalar_of(elem_of(ainfo(*self))),
        decreases self,
    {
        match self {
            ArrayInfo::Known { element_type, .. } => element_type.scalar_type(),
            ArrayInfo::Ranked { element_type, .. } => element_type.scalar_type(),
            ArrayInfo::Unranked { element_type, .. } => element_type.scalar_type(),
        }
    }

    /// A mutable reference to the scalar type at the bottom of this array's
    /// elements.
    pub fn scalar_type_mut(&mut self) -> (r: Option<&mut ScalarInfo>)
        ensures
            r is None <==> scalar_of(elem_of(ainfo(*old(self)))) is None,
            r matches Some(x) ==> Some(*x) == scalar_of(elem_of(ainfo(*old(self)))),
            r matches Some(x) ==> ainfo(*final(self)) == a_with_scalar(ainfo(*old(self)), *final(x)),
            r is None ==> *final(self) == *old(self),
        decreases *old(self),
    {
        match self {
            ArrayInfo::Known { element_type, .. } => element_type.scalar_type_mut(),
            ArrayInfo::Ranked { element_type, .. } => element_type.scalar_type_mut(),
            ArrayInfo::Unranked { element_type, .. } => element_type.scalar_type_mut(),
        }
    }
}


/// The array with its element type replaced by `e`.
pub open spec fn a_with_elem(a: AInfo, e: VInfo) -> AInfo {
    match a {
        AInfo::Known(_, sh, d) => AInfo::Known(e, sh, d),
        AInfo::Ranked(_, sh) => AInfo::Ranked(e, sh),
        AInfo::Unranked(_, p, q) => AInfo::Unranked(e, p, q),
    }
}

impl ArrayInfo {
    /// A mutable reference to the element type of this array.
    pub fn element_type_mut(&mut self) -> (r: &mut ValueInfo)
        ensures
            vinfo(*r) == elem_of(ainfo(*old(self))),
            ainfo(*final(self)) == a_with_elem(ainfo(*old(self)), vinfo(*final(r))),
    {
        match self {
            ArrayInfo::Known { element_type, .. } => element_type,
            ArrayInfo::Ranked { element_type, .. } => element_type,
            ArrayInfo::Unranked { element_type, .. } => element_type,
        }
    }
}

/// A known shape as a symbolic one: each axis the constant polynomial of its
/// length.
pub open spec fn demoted(s: Seq<usize>) -> Seq<Poly> {
    s.map_values(|x: usize| const_terms(x as int))
}

/// A shape of lengths that each fit in `isize`.
pub open spec fn dims_fit(s: Seq<usize>) -> bool {
    forall|i: int| 0 <= i < s.len() ==> #[trigger] s[i] <= isize::MAX
}

/// Turns a known shape into a symbolic one.
pub fn demote_known_shape(known_shape: &[usize]) -> (r: Vec<Expr>)
    requires
        dims_fit(known_shape@),
    ensures
        shape_view(r@) == demoted(known_shape@),
{
    let mut r: Vec<Expr> = Vec::new();
    let mut i: usize = 0;
    while i < known_shape.len()
        invariant
            i <= known_shape.len(),
            dims_fit(known_shape@),
            shape_view(r@) =~= demoted(known_shape@).take(i as int),
        decreases known_shape.len() - i,
    {
        let e = Expr::from_usize(known_shape[i]);
        let ghost before = r@;
        r.push(e);
        assert(shape_view(r@) =~= shape_view(before).push(e@));
        assert(demoted(known_shape@).take(i + 1) =~= demoted(known_shape@).take(i as int).push(
            const_terms(known_shape@[i as int] as int),
        ));
        i = i + 1;
    }
    assert(demoted(known_shape@).take(i as int) =~= demoted(known_shape@));
    r
}

/// The items joined, with `sep` between each two.
pub open spec fn joined(items: Seq<Seq<char>>, sep: Seq<char>) -> Seq<char>
    decreases items.len(),
{
    if items.len() == 0 {
        seq![]
    } else if items.len() == 1 {
        items[0]
    } else {
        joined(items.drop_last(), sep) + sep + items.last()
    }
}

/// The decimal text of an integer, with a leading `-` when negative.
pub open spec fn int_text(c: int) -> Seq<char> {
    if c < 0 {
        seq!['-'] + decimal((-c) as nat)
    } else {
        decimal(c as nat)
    }
}

/// The text of one symbolic axis: its length when constant, else `?`.
pub open spec fn axis_text(p: Poly) -> Seq<char> {
    match const_of(p) {
        Some(c) => int_text(c),
        None => seq!['?'],
    }
}

/// The text of a symbolic shape: its axes joined by `×`.
pub open spec fn shape_text(s: Seq<Poly>) -> Seq<char> {
    joined(s.map_values(|p: Poly| axis_text(p)), seq!['×'])
}

/// The text of a known shape: its lengths joined by `×`.
pub open spec fn dims_text(s: Seq<usize>) -> Seq<char> {
    joined(s.map_values(|x: usize| decimal(x as nat)), seq!['×'])
}

/// Appends the decimal text of a signed integer.
fn push_int(s: &mut String, c: isize)
    ensures
        final(s)@ == old(s)@ + int_text(c as int),
{
    let digits: [char; 10] = ['0', '1', '2', '3', '4', '5', '6', '7', '8', '9'];
    assert(digits@ =~= ascii_digits());
    let ghost s0 = s@;
    if c < 0 {
        push_char(s, '-');
        let m: u64 = ((-(c + 1)) as u64) + 1;
        assert(m == -c);
        push_encoded(s, m, &digits);
    } else {
        push_encoded(s, c as u64, &digits);
    }
    assert(s@ =~= s0 + int_text(c as int));
}

proof fn lemma_joined_push(items: Seq<Seq<char>>, sep: Seq<char>, x: Seq<char>)
    ensures
        joined(items.push(x), sep) == if items.len() == 0 { x } else { joined(items, sep) + sep + x },
{
    assert(items.push(x).drop_last() =~= items);
}

/// The text of a symbolic shape: each axis is its length when constant and
/// `?` otherwise, joined by `×`.
pub fn fmt_shape(shape: &[Expr]) -> (r: String)
    ensures
        r@ == shape_text(shape_view(shape@)),
{
    let mut r = String::new();
    let ghost items = shape_view(shape@).map_values(|p: Poly| axis_text(p));
    let mut i: usize = 0;
    while i < shape.len()
        invariant
            i <= shape.len(),
            items == shape_view(shape@).map_values(|p: Poly| axis_text(p)),
            r@ == joined(items.take(i as int), seq!['×']),
        decreases shape.len() - i,
    {
        let ghost before = r@;
        if i > 0 {
            push_char(&mut r, '×');
        }
        let ghost mid = r@;
        match shape[i].as_const() {
            Some(c) => push_int(&mut r, c),
            None => push_char(&mut r, '?'),
        }
        proof {
            assert(items[i as int] == axis_text(shape@[i as int]@));
            assert(r@ == mid + items[i as int]);
            assert(items.take(i + 1) =~= items.take(i as int).push(items[i as int]));
            lemma_joined_push(items.take(i as int), seq!['×'], items[i as int]);
            if i == 0 {
                assert(before =~= seq![]);
            }
        }
        i = i + 1;
        assert(r@ =~= joined(items.take(i as int), seq!['×']));
    }
    assert(items.take(i as int) =~= items);
    r
}

/// Appends the text of a known shape.
fn push_dims(r: &mut String, dims: &Vec<usize>)
    ensures
        final(r)@ == old(r)@ + dims_text(dims@),
{
    let digits: [char; 10] = ['0', '1', '2', '3', '4', '5', '6', '7', '8', '9'];
    assert(digits@ =~= ascii_digits());
    let ghost r0 = r@;
    let ghost items = dims@.map_values(|x: usize| decimal(x as nat));
    let mut i: usize = 0;
    assert(r@ =~= r0 + joined(items.take(0), seq!['×']));
    while i < dims.len()
        invariant
            i <= dims.len(),
            items == dims@.map_values(|x: usize| decimal(x as nat)),
            digits@ == ascii_digits(),
            r@ == r0 + joined(items.take(i as int), seq!['×']),
        decreases dims.len() - i,
    {
        if i > 0 {
            push_char(r, '×');
        }
        let ghost mid = r@;
        let d: u64 = dims[i] as u64;
        push_encoded(r, d, &digits);
        proof {
            assert(d as nat == dims@[i as int] as nat);
            assert(encode_digits(d as nat, digits@) == decimal(dims@[i as int] as nat));
            assert(items[i as int] == decimal(dims@[i as int] as nat));
            assert(r@ == mid + items[i as int]);
            if i == 0 {
                assert(r0 + joined(items.take(0), seq!['×']) =~= r0);
            }
            assert(items.take(i + 1) =~= items.take(i as int).push(items[i as int]));
            lemma_joined_push(items.take(i as int), seq!['×'], items[i as int]);
        }
        i = i + 1;
        assert(r@ =~= r0 + joined(items.take(i as int), seq!['×']));
    }
    assert(items.take(i as int) =~= items);
}

/// Whether every type met in naming a value can be named: structures and
/// enums have no name yet.
pub open spec fn nameable(v: VInfo) -> bool
    decreases v,
{
    match v {
        VInfo::Scalar(_) => true,
        VInfo::Array(a) => anameable(*a),
        VInfo::Mapping(k, val) => nameable(*k) && nameable(*val),
        _ => false,
    }
}

/// Whether an array's type can be named.
pub open spec fn anameable(a: AInfo) -> bool
    decreases a,
{
    match a {
        AInfo::Known(e, _, _) => nameable(e),
        AInfo::Ranked(e, _) => nameable(e),
        AInfo::Unranked(e, _, _) => nameable(e),
    }
}

/// The name of a value type, as shown in error messages.
pub open spec fn type_text(v: VInfo) -> Seq<char>
    decreases v,
{
    match v {
        VInfo::Scalar(s) => scalar_name(s),
        VInfo::Array(a) => atype_text(*a),
        VInfo::Mapping(k, val) => "map from "@ + type_text(*k) + " to "@ + type_text(*val),
        _ => seq![],
    }
}

/// The name of an array type.
pub open spec fn atype_text(a: AInfo) -> Seq<char>
    decreases a,
{
    match a {
        AInfo::Known(e, sh, _) => "shape "@ + dims_text(sh) + " "@ + "array of "@ + type_text(e),
        AInfo::Ranked(e, sh) => "shape "@ + shape_text(sh) + " "@ + "array of "@ + type_text(e),
        AInfo::Unranked(e, _, _) => "array of "@ + type_text(e),
    }
}

impl ValueInfo {
    /// The name of this value's type, as shown in error messages.
    pub fn type_label(&self) -> (r: String)
        requires
            nameable(vinfo(*self)),
        ensures
            r@ == type_text(vinfo(*self)),
        decreases self,
    {
        match self {
            ValueInfo::Scalar(scalar) => String::from_str(scalar.type_label()),
            ValueInfo::Array(array) => array.type_label(),
            ValueInfo::Mapping(map) => map.type_label(),
            _ => String::new(),
        }
    }
}

impl ArrayInfo {
    /// The name of this array's type, as shown in error messages.
    pub fn type_label(&self) -> (r: String)
        requires
            anameable(ainfo(*self)),
        ensures
            r@ == atype_text(ainfo(*self)),
        decreases self,
    {
        let mut r = String::new();
        let e = match self {
            ArrayInfo::Known { value, element_type } => {
                r.append("shape ");
                push_dims(&mut r, &value.shape);
                r.append(" ");
                element_type.type_label()
            },
            ArrayInfo::Ranked { shape, element_type } => {
                r.append("shape ");
                let s = fmt_shape(shape.as_slice());
                r.append(s.as_str());
                r.append(" ");
                element_type.type_label()
            },
            ArrayInfo::Unranked { element_type, .. } => element_type.type_label(),
        };
        r.append("array of ");
        r.append(e.as_str());
        r
    }
}

impl MapInfo {
    /// The name of this map's type, as shown in error messages.
    pub fn type_label(&self) -> (r: String)
        requires
            nameable(vinfo(self.key_type)),
            nameable(vinfo(self.value_type)),
        ensures
            r@ == "map from "@ + type_text(vinfo(self.key_type)) + " to "@ + type_text(vinfo(self.value_type)),
        decreases self,
    {
        let k = self.key_type.type_label();
        let v = self.value_type.type_label();
        let mut r = String::new();
        r.append("map from ");
        r.append(k.as_str());
        r.append(" to ");
        r.append(v.as_str());
        r
    }
}

/// The symbolic shape of an array, when its rank is known.
pub open spec fn sym_shape_of(a: AInfo) -> Option<Seq<Poly>> {
    match a {
        AInfo::Known(_, sh, _) => Some(demoted(sh)),
        AInfo::Ranked(_, sh) => Some(sh),
        AInfo::Unranked(_, _, _) => None,
    }
}

impl ArrayInfo {
    /// The symbolic shape of this array, when its rank is known.
    pub fn sym_shape(&self) -> (r: Option<Vec<Expr>>)
        requires
            ainfo(*self) matches AInfo::Known(_, sh, _) ==> dims_fit(sh),
        ensures
            r is Some <==> sym_shape_of(ainfo(*self)) is Some,
            r matches Some(v) ==> Some(shape_view(v@)) == sym_shape_of(ainfo(*self)),
    {
        match self {
            ArrayInfo::Known { value, .. } => Some(demote_known_shape(value.shape.as_slice())),
            ArrayInfo::Ranked { shape, .. } => Some(clone_shape(shape)),
            ArrayInfo::Unranked { .. } => None,
        }
    }
}


/// Whether two optional floats compare equal: both absent, or both present
/// and equal as IEEE doubles.
pub open spec fn opt_float_eq(a: Option<u64>, b: Option<u64>) -> bool {
    match (a, b) {
        (None, None) => true,
        (Some(x), Some(y)) => float_eq(x, y),
        _ => false,
    }
}

/// An integer (that may stand for an infinity) as a double.
pub open spec fn int_to_float_opt(v: Option<i64>, maybe_inf: bool) -> Option<u64> {
    match v {
        None => None,
        Some(x) => Some(
            if maybe_inf && x == i64::MAX {
                POS_INFINITY
            } else if maybe_inf && x == i64::MIN + 1 {
                NEG_INFINITY
            } else {
                int_to_float_bits(x)
            },
        ),
    }
}

/// A boolean as the integer 0 or 1.
pub open spec fn bool_int(b: Option<bool>) -> Option<i64> {
    match b {
        Some(x) => Some(if x { 1i64 } else { 0i64 }),
        None => None,
    }
}

/// The integer `i` when it is known and equal to `b`.
pub open spec fn int_meet(b: Option<i64>, i: Option<i64>) -> Option<i64> {
    match (b, i) {
        (Some(x), Some(y)) => if x == y { Some(y) } else { None },
        _ => None,
    }
}

/// The float `f` when it is known and equal to `i`.
pub open spec fn float_meet(i: Option<u64>, f: Option<u64>) -> Option<u64> {
    match (i, f) {
        (Some(x), Some(y)) => if float_eq(x, y) { Some(y) } else { None },
        _ => None,
    }
}

/// The least scalar type that holds both: equal kinds keep a value both
/// share, booleans widen to integers, and integers to floats.
pub open spec fn ssuper(l: ScalarInfo, r: ScalarInfo) -> Option<ScalarInfo> {
    match (l, r) {
        (ScalarInfo::Bool(a), ScalarInfo::Bool(b)) => Some(ScalarInfo::Bool(if a == b { a } else { None })),
        (ScalarInfo::Float(a), ScalarInfo::Float(b)) => Some(
            ScalarInfo::Float(if opt_float_eq(a, b) { a } else { None }),
        ),
        (ScalarInfo::Char(a), ScalarInfo::Char(b)) => Some(ScalarInfo::Char(if a == b { a } else { None })),
        (ScalarInfo::Int(a, x), ScalarInfo::Int(b, y)) => Some(ScalarInfo::Int(if a == b { a } else { None }, x || y)),
        (ScalarInfo::Bool(b), ScalarInfo::Int(i, inf)) => Some(ScalarInfo::Int(int_meet(bool_int(b), i), inf)),
        (ScalarInfo::Int(i, inf), ScalarInfo::Bool(b)) => Some(ScalarInfo::Int(int_meet(bool_int(b), i), inf)),
        (ScalarInfo::Bool(b), ScalarInfo::Float(f)) => Some(
            ScalarInfo::Float(float_meet(int_to_float_opt(bool_int(b), false), f)),
        ),
        (ScalarInfo::Float(f), ScalarInfo::Bool(b)) => Some(
            ScalarInfo::Float(float_meet(int_to_float_opt(bool_int(b), false), f)),
        ),
        (ScalarInfo::Int(i, inf), ScalarInfo::Float(f)) => Some(ScalarInfo::Float(float_meet(int_to_float_opt(i, inf), f))),
        (ScalarInfo::Float(f), ScalarInfo::Int(i, inf)) => Some(ScalarInfo::Float(float_meet(int_to_float_opt(i, inf), f))),
        _ => None,
    }
}

impl ScalarInfo {
    /// An integer as a double, where with `maybe_inf` the integers `i64::MAX`
    /// and `i64::MIN + 1` stand for the two infinities.
    pub fn int_to_float(val: Option<i64>, maybe_inf: bool) -> (r: Option<u64>)
        ensures
            r == int_to_float_opt(val, maybe_inf),
    {
        match val {
            None => None,
            Some(x) => {
                if maybe_inf && x == i64::MAX {
                    Some(POS_INFINITY)
                } else if maybe_inf && x == i64::MIN + 1 {
                    Some(NEG_INFINITY)
                } else {
                    Some(int_to_float(x))
                }
            },
        }
    }

    /// A double as an integer, cast toward zero (saturating, NaN as 0, minus
    /// infinity as `i64::MIN + 1`), with whether it may stand for an
    /// infinity, which an unknown value may.
    pub fn float_to_int(val: Option<u64>) -> (r: (Option<i64>, bool))
        ensures
            r == float_to_int_opt(val, Rounding::TowardZero),
    {
        match val {
            None => (None, true),
            Some(b) => (Some(float_to_whole(b, Rounding::TowardZero)), float_is_infinite(b)),
        }
    }

    /// Applies `f` to a known integer, unless it stands for an infinity.
    pub fn map_inf<F: FnOnce(i64) -> i64>(val: Option<i64>, maybe_inf: bool, f: F) -> (r: Option<i64>)
        requires
            match val {
                Some(v) => !stands_for_infinity(v, maybe_inf) ==> f.requires((v,)),
                None => true,
            },
        ensures
            match val {
                None => r is None,
                Some(v) => if stands_for_infinity(v, maybe_inf) {
                    r == Some(v)
                } else {
                    r matches Some(y) && f.ensures((v,), y)
                },
            },
    {
        match val {
            None => None,
            Some(v) => {
                if maybe_inf && (v == i64::MIN + 1 || v == i64::MAX) {
                    Some(v)
                } else {
                    Some(f(v))
                }
            },
        }
    }
}

/// Whether the integer `v` stands for an infinity: with `maybe_inf`,
/// `i64::MAX` and `i64::MIN + 1` do.
pub open spec fn stands_for_infinity(v: i64, maybe_inf: bool) -> bool {
    maybe_inf && (v == i64::MIN + 1 || v == i64::MAX)
}

/// A double, when known, brought to an integer by `mode`, with whether the
/// integer may stand for an infinity.
pub open spec fn float_to_int_opt(val: Option<u64>, mode: Rounding) -> (Option<i64>, bool) {
    match val {
        None => (None, true),
        Some(b) => (Some(whole_int(b, mode)), is_infinite(b)),
    }
}

fn same_bool(a: Option<bool>, b: Option<bool>) -> (r: bool)
    ensures
        r == (a == b),
{
    match (a, b) {
        (None, None) => true,
        (Some(x), Some(y)) => x == y,
        _ => false,
    }
}

fn same_int(a: Option<i64>, b: Option<i64>) -> (r: bool)
    ensures
        r == (a == b),
{
    match (a, b) {
        (None, None) => true,
        (Some(x), Some(y)) => x == y,
        _ => false,
    }
}

fn same_char(a: Option<char>, b: Option<char>) -> (r: bool)
    ensures
        r == (a == b),
{
    match (a, b) {
        (None, None) => true,
        (Some(x), Some(y)) => x == y,
        _ => false,
    }
}

fn same_float(a: Option<u64>, b: Option<u64>) -> (r: bool)
    ensures
        r == opt_float_eq(a, b),
{
    match (a, b) {
        (None, None) => true,
        (Some(x), Some(y)) => float_equals(x, y),
        _ => false,
    }
}

fn meet_int(b: Option<bool>, i: Option<i64>) -> (r: Option<i64>)
    ensures
        r == int_meet(bool_int(b), i),
{
    match (b, i) {
        (Some(x), Some(y)) => {
            let bx: i64 = if x { 1 } else { 0 };
            if bx == y { Some(y) } else { None }
        },
        _ => None,
    }
}

fn meet_float(i: Option<u64>, f: Option<u64>) -> (r: Option<u64>)
    ensures
        r == float_meet(i, f),
{
    match (i, f) {
        (Some(x), Some(y)) => if float_equals(x, y) { Some(y) } else { None },
        _ => None,
    }
}

fn bool_to_int(b: Option<bool>) -> (r: Option<i64>)
    ensures
        r == bool_int(b),
{
    match b {
        Some(x) => Some(if x { 1 } else { 0 }),
        None => None,
    }
}

/// The least scalar type that holds both scalars.
pub fn scalar_supertype(l: ScalarInfo, r: ScalarInfo) -> (res: Option<ScalarInfo>)
    ensures
        res == ssuper(l, r),
{
    match (l, r) {
        (ScalarInfo::Bool(a), ScalarInfo::Bool(b)) => Some(ScalarInfo::Bool(if same_bool(a, b) { a } else { None })),
        (ScalarInfo::Float(a), ScalarInfo::Float(b)) => Some(ScalarInfo::Float(if same_float(a, b) { a } else { None })),
        (ScalarInfo::Char(a), ScalarInfo::Char(b)) => Some(ScalarInfo::Char(if same_char(a, b) { a } else { None })),
        (ScalarInfo::Int(a, x), ScalarInfo::Int(b, y)) => Some(ScalarInfo::Int(if same_int(a, b) { a } else { None }, x || y)),
        (ScalarInfo::Bool(b), ScalarInfo::Int(i, inf)) => Some(ScalarInfo::Int(meet_int(b, i), inf)),
        (ScalarInfo::Int(i, inf), ScalarInfo::Bool(b)) => Some(ScalarInfo::Int(meet_int(b, i), inf)),
        (ScalarInfo::Bool(b), ScalarInfo::Float(f)) => Some(
            ScalarInfo::Float(meet_float(ScalarInfo::int_to_float(bool_to_int(b), false), f)),
        ),
        (ScalarInfo::Float(f), ScalarInfo::Bool(b)) => Some(
            ScalarInfo::Float(meet_float(ScalarInfo::int_to_float(bool_to_int(b), false), f)),
        ),
        (ScalarInfo::Int(i, inf), ScalarInfo::Float(f)) => Some(ScalarInfo::Float(meet_float(ScalarInfo::int_to_float(i, inf), f))),
        (ScalarInfo::Float(f), ScalarInfo::Int(i, inf)) => Some(ScalarInfo::Float(meet_float(ScalarInfo::int_to_float(i, inf), f))),
        _ => None,
    }
}


/// How a computation that numbers fresh variables with a counter ends: it
/// finds a value, finds none, or does not complete (a case it does not
/// support, or a variable counter at its limit). The number is the counter
/// afterwards.
pub enum Outcome<T> {
    Unsupported,
    Absent(nat),
    Found(T, nat),
}

/// The single-variable polynomial `x_k`.
pub open spec fn var_poly(k: nat) -> Poly {
    seq![(var_mono(k), 1int)]
}

/// Nesting height, the measure by which the supertype computation ends.
pub open spec fn vh(v: VInfo) -> nat
    decreases v,
{
    match v {
        VInfo::Array(a) => 1 + ah(*a),
        _ => 0,
    }
}

pub open spec fn ah(a: AInfo) -> nat
    decreases a,
{
    match a {
        AInfo::Known(e, _, d) => 1 + vh(e) + hsum(d),
        AInfo::Ranked(e, _) => 1 + vh(e),
        AInfo::Unranked(e, _, _) => 1 + vh(e),
    }
}

pub open spec fn hsum(d: Seq<VInfo>) -> nat
    decreases d,
{
    if d.len() == 0 {
        0
    } else {
        vh(d[0]) + 1 + hsum(d.subrange(1, d.len() as int))
    }
}

/// The shape that covers two known shapes of one rank: an axis where they
/// agree keeps its length, and each axis where they differ becomes a fresh
/// variable, numbered in order from `n`.
pub open spec fn kmerge(l: Seq<usize>, r: Seq<usize>, n: nat) -> Option<(Seq<Poly>, nat)>
    decreases l.len(),
{
    if l.len() == 0 || r.len() == 0 {
        Some((seq![], n))
    } else {
        match kmerge(l.drop_last(), r.drop_last(), n) {
            None => None,
            Some((p, m)) => if l.last() == r.last() {
                if l.last() <= isize::MAX {
                    Some((p.push(const_terms(l.last() as int)), m))
                } else {
                    None
                }
            } else if m < usize::MAX {
                Some((p.push(var_poly(m)), m + 1))
            } else {
                None
            },
        }
    }
}

/// The shape that covers two symbolic shapes of one rank.
pub open spec fn rmerge(l: Seq<Poly>, r: Seq<Poly>, n: nat) -> Option<(Seq<Poly>, nat)>
    decreases l.len(),
{
    if l.len() == 0 || r.len() == 0 {
        Some((seq![], n))
    } else {
        match rmerge(l.drop_last(), r.drop_last(), n) {
            None => None,
            Some((p, m)) => if l.last() == r.last() {
                Some((p.push(l.last()), m))
            } else if m < usize::MAX {
                Some((p.push(var_poly(m)), m + 1))
            } else {
                None
            },
        }
    }
}

/// Whether every axis of a shape has its variables below `n`: the counter
/// `n` is past every variable the shape uses.
pub open spec fn shape_vars_below(s: Seq<Poly>, n: nat) -> bool {
    forall|i: int| 0 <= i < s.len() ==> vars_below(#[trigger] s[i], n)
}

/// A variable numbered `k` or later uses a variable that is not below `k`.
proof fn lemma_var_poly_not_below(k: nat, n: nat)
    requires
        n <= k,
    ensures
        !vars_below(var_poly(k), n),
{
    assert(var_poly(k)[0].0.len() == k + 1);
}

/// Merging two ranked shapes keeps each axis the two agree on and makes
/// every other axis a new variable, numbered from the counter on; where the
/// counter is past every variable of both shapes, a new axis occurs in
/// neither of them.
pub proof fn lemma_rmerge_fresh(l: Seq<Poly>, r: Seq<Poly>, n: nat)
    requires
        l.len() == r.len(),
        shape_vars_below(l, n),
        shape_vars_below(r, n),
        rmerge(l, r, n) is Some,
    ensures
        rmerge(l, r, n) matches Some((sh, m)) && sh.len() == l.len() && n <= m && forall|i: int| 0 <= i < sh.len() ==> (
        sh[i] == l[i] && l[i] == r[i]) || (!vars_below(#[trigger] sh[i], n) && forall|j: int| 0 <= j < l.len()
            ==> sh[i] != l[j] && sh[i] != r[j]),
    decreases l.len(),
{
    if l.len() > 0 {
        let lp = l.drop_last();
        let rp = r.drop_last();
        assert(shape_vars_below(lp, n)) by {
            assert forall|i: int| 0 <= i < lp.len() implies vars_below(#[trigger] lp[i], n) by {
                assert(lp[i] == l[i]);
            }
        }
        assert(shape_vars_below(rp, n)) by {
            assert forall|i: int| 0 <= i < rp.len() implies vars_below(#[trigger] rp[i], n) by {
                assert(rp[i] == r[i]);
            }
        }
        lemma_rmerge_fresh(lp, rp, n);
        let (p, m0) = rmerge(lp, rp, n)->Some_0;
        let (sh, m) = rmerge(l, r, n)->Some_0;
        if !(l.last() == r.last()) {
            lemma_var_poly_not_below(m0, n);
        }
        assert forall|i: int| 0 <= i < sh.len() implies (sh[i] == l[i] && l[i] == r[i]) || (!vars_below(#[trigger] sh[i], n)
            && forall|j: int| 0 <= j < l.len() ==> sh[i] != l[j] && sh[i] != r[j]) by {
            if i < p.len() {
                assert(sh[i] == p[i]);
                assert(lp[i] == l[i] && rp[i] == r[i]);
            }
            if !(sh[i] == l[i] && l[i] == r[i]) {
                assert(!vars_below(sh[i], n));
                assert forall|j: int| 0 <= j < l.len() implies sh[i] != l[j] && sh[i] != r[j] by {
                    assert(vars_below(l[j], n));
                    assert(vars_below(r[j], n));
                }
            }
        }
    }
}

/// Merging two known shapes keeps each length the two agree on, as a
/// constant, and makes every other axis a new variable, numbered from the
/// counter on, which is no constant.
pub proof fn lemma_kmerge_fresh(l: Seq<usize>, r: Seq<usize>, n: nat)
    requires
        l.len() == r.len(),
        kmerge(l, r, n) is Some,
    ensures
        kmerge(l, r, n) matches Some((sh, m)) && sh.len() == l.len() && n <= m && forall|i: int| 0 <= i < sh.len() ==> (
        l[i] == r[i] && sh[i] == const_terms(l[i] as int)) || (l[i] != r[i] && !vars_below(#[trigger] sh[i], n)
            && sh[i] != const_terms(l[i] as int) && sh[i] != const_terms(r[i] as int)),
    decreases l.len(),
{
    if l.len() > 0 {
        let lp = l.drop_last();
        let rp = r.drop_last();
        lemma_kmerge_fresh(lp, rp, n);
        let (p, m0) = kmerge(lp, rp, n)->Some_0;
        let (sh, m) = kmerge(l, r, n)->Some_0;
        if l.last() != r.last() {
            lemma_var_poly_not_below(m0, n);
        }
        assert forall|i: int| 0 <= i < sh.len() implies (l[i] == r[i] && sh[i] == const_terms(l[i] as int)) || (l[i] != r[i]
            && !vars_below(#[trigger] sh[i], n) && sh[i] != const_terms(l[i] as int) && sh[i] != const_terms(r[i] as int)) by {
            if i < p.len() {
                assert(sh[i] == p[i]);
                assert(lp[i] == l[i] && rp[i] == r[i]);
            }
            if l[i] != r[i] {
                assert(vars_below(const_terms(l[i] as int), n));
                assert(vars_below(const_terms(r[i] as int), n));
            }
        }
    }
}

/// The least value type that holds both, numbering fresh variables from `n`.
pub open spec fn vsuper(a: VInfo, b: VInfo, n: nat) -> Outcome<VInfo>
    decreases vh(a) + vh(b),
{
    match (a, b) {
        (VInfo::Scalar(l), VInfo::Scalar(r)) => match ssuper(l, r) {
            Some(x) => Outcome::Found(VInfo::Scalar(x), n),
            None => Outcome::Absent(n),
        },
        (VInfo::Array(l), VInfo::Array(r)) => match asuper(*l, *r, n) {
            Outcome::Found(x, m) => Outcome::Found(VInfo::Array(Box::new(x)), m),
            Outcome::Absent(m) => Outcome::Absent(m),
            Outcome::Unsupported => Outcome::Unsupported,
        },
        _ => Outcome::Absent(n),
    }
}

/// The least ranked array type over two element types and two symbolic shapes.
pub open spec fn rsuper(le: VInfo, lsh: Seq<Poly>, re: VInfo, rsh: Seq<Poly>, n: nat) -> Outcome<AInfo>
    decreases vh(le) + vh(re) + 1,
{
    match vsuper(le, re, n) {
        Outcome::Found(e, n1) => if lsh.len() == rsh.len() {
            match rmerge(lsh, rsh, n1) {
                Some((sh, n2)) => Outcome::Found(AInfo::Ranked(e, sh), n2),
                None => Outcome::Unsupported,
            }
        } else {
            Outcome::Unsupported
        },
        Outcome::Absent(n1) => Outcome::Absent(n1),
        Outcome::Unsupported => Outcome::Unsupported,
    }
}

/// The element-wise supertypes of two lists of values, in order, as far as
/// the shorter list goes; absent as soon as one pair has none.
pub open spec fn dsuper(ld: Seq<VInfo>, rd: Seq<VInfo>, n: nat) -> Outcome<Seq<VInfo>>
    decreases hsum(ld) + hsum(rd),
{
    if ld.len() == 0 || rd.len() == 0 {
        Outcome::Found(seq![], n)
    } else {
        match vsuper(ld[0], rd[0], n) {
            Outcome::Found(x, m) => match dsuper(ld.subrange(1, ld.len() as int), rd.subrange(1, rd.len() as int), m) {
                Outcome::Found(p, m2) => Outcome::Found(seq![x] + p, m2),
                Outcome::Absent(m2) => Outcome::Absent(m2),
                Outcome::Unsupported => Outcome::Unsupported,
            },
            Outcome::Absent(m) => Outcome::Absent(m),
            Outcome::Unsupported => Outcome::Unsupported,
        }
    }
}

/// The least array type that holds both arrays.
pub open spec fn asuper(l: AInfo, r: AInfo, n: nat) -> Outcome<AInfo>
    decreases ah(l) + ah(r),
{
    match (l, r) {
        (AInfo::Known(le, lsh, ld), AInfo::Known(re, rsh, rd)) => match vsuper(le, re, n) {
            Outcome::Found(e, n1) => if lsh.len() == rsh.len() {
                match kmerge(lsh, rsh, n1) {
                    Some((sh, n2)) => if lsh == rsh {
                        match dsuper(ld, rd, n2) {
                            Outcome::Found(d, n3) => Outcome::Found(AInfo::Known(e, lsh, d), n3),
                            Outcome::Absent(n3) => Outcome::Found(AInfo::Ranked(e, sh), n3),
                            Outcome::Unsupported => Outcome::Unsupported,
                        }
                    } else {
                        Outcome::Found(AInfo::Ranked(e, sh), n2)
                    },
                    None => Outcome::Unsupported,
                }
            } else {
                Outcome::Unsupported
            },
            Outcome::Absent(n1) => Outcome::Absent(n1),
            Outcome::Unsupported => Outcome::Unsupported,
        },
        (AInfo::Ranked(le, lsh), AInfo::Ranked(re, rsh)) => rsuper(le, lsh, re, rsh, n),
        (AInfo::Unranked(le, _, _), AInfo::Unranked(re, _, _)) => match vsuper(le, re, n) {
            Outcome::Absent(n1) => Outcome::Absent(n1),
            _ => Outcome::Unsupported,
        },
        (AInfo::Known(ke, sh, _), AInfo::Ranked(re, rsh)) => if dims_fit(sh) {
            rsuper(ke, demoted(sh), re, rsh, n)
        } else {
            Outcome::Unsupported
        },
        (AInfo::Ranked(le, lsh), AInfo::Known(ke, sh, _)) => if dims_fit(sh) {
            rsuper(ke, demoted(sh), le, lsh, n)
        } else {
            Outcome::Unsupported
        },
        _ => Outcome::Unsupported,
    }
}


/// The counter never goes back: an outcome found or absent leaves it at `n`
/// or past it.
pub open spec fn counter_grows<T>(o: Outcome<T>, n: nat) -> bool {
    match o {
        Outcome::Found(_, m) => n <= m,
        Outcome::Absent(m) => n <= m,
        Outcome::Unsupported => true,
    }
}

proof fn lemma_kmerge_grows(l: Seq<usize>, r: Seq<usize>, n: nat)
    ensures
        kmerge(l, r, n) matches Some((sh, m)) ==> n <= m,
    decreases l.len(),
{
    if l.len() > 0 && r.len() > 0 {
        lemma_kmerge_grows(l.drop_last(), r.drop_last(), n);
    }
}

proof fn lemma_rmerge_grows(l: Seq<Poly>, r: Seq<Poly>, n: nat)
    ensures
        rmerge(l, r, n) matches Some((sh, m)) ==> n <= m,
    decreases l.len(),
{
    if l.len() > 0 && r.len() > 0 {
        lemma_rmerge_grows(l.drop_last(), r.drop_last(), n);
    }
}

proof fn lemma_vsuper_grows(a: VInfo, b: VInfo, n: nat)
    ensures
        counter_grows(vsuper(a, b, n), n),
    decreases vh(a) + vh(b),
{
    if let (VInfo::Array(l), VInfo::Array(r)) = (a, b) {
        lemma_asuper_grows(*l, *r, n);
    }
}

proof fn lemma_rsuper_grows(le: VInfo, lsh: Seq<Poly>, re: VInfo, rsh: Seq<Poly>, n: nat)
    ensures
        counter_grows(rsuper(le, lsh, re, rsh, n), n),
    decreases vh(le) + vh(re) + 1,
{
    lemma_vsuper_grows(le, re, n);
    if let Outcome::Found(e, n1) = vsuper(le, re, n) {
        lemma_rmerge_grows(lsh, rsh, n1);
    }
}

proof fn lemma_dsuper_grows(ld: Seq<VInfo>, rd: Seq<VInfo>, n: nat)
    ensures
        counter_grows(dsuper(ld, rd, n), n),
    decreases hsum(ld) + hsum(rd),
{
    if ld.len() > 0 && rd.len() > 0 {
        lemma_vsuper_grows(ld[0], rd[0], n);
        if let Outcome::Found(x, m) = vsuper(ld[0], rd[0], n) {
            lemma_dsuper_grows(ld.subrange(1, ld.len() as int), rd.subrange(1, rd.len() as int), m);
        }
    }
}

proof fn lemma_asuper_grows(l: AInfo, r: AInfo, n: nat)
    ensures
        counter_grows(asuper(l, r, n), n),
    decreases ah(l) + ah(r),
{
    match (l, r) {
        (AInfo::Known(le, lsh, ld), AInfo::Known(re, rsh, rd)) => {
            lemma_vsuper_grows(le, re, n);
            if let Outcome::Found(e, n1) = vsuper(le, re, n) {
                lemma_kmerge_grows(lsh, rsh, n1);
                if let Some((sh, n2)) = kmerge(lsh, rsh, n1) {
                    lemma_dsuper_grows(ld, rd, n2);
                }
            }
        },
        (AInfo::Ranked(le, lsh), AInfo::Ranked(re, rsh)) => lemma_rsuper_grows(le, lsh, re, rsh, n),
        (AInfo::Unranked(le, _, _), AInfo::Unranked(re, _, _)) => lemma_vsuper_grows(le, re, n),
        (AInfo::Known(ke, sh, _), AInfo::Ranked(re, rsh)) => lemma_rsuper_grows(ke, demoted(sh), re, rsh, n),
        (AInfo::Ranked(le, lsh), AInfo::Known(ke, sh, _)) => lemma_rsuper_grows(ke, demoted(sh), le, lsh, n),
        _ => {},
    }
}

/// The symbolic shape of an array type: a known shape's lengths as
/// constants, a ranked shape as it is.
pub open spec fn axes_of(a: AInfo) -> Seq<Poly> {
    match a {
        AInfo::Known(_, sh, _) => demoted(sh),
        AInfo::Ranked(_, sh) => sh,
        AInfo::Unranked(_, _, _) => seq![],
    }
}

proof fn lemma_demoted_below(sh: Seq<usize>, n: nat)
    ensures
        shape_vars_below(demoted(sh), n),
{
    assert forall|i: int| 0 <= i < demoted(sh).len() implies vars_below(#[trigger] demoted(sh)[i], n) by {
        assert(demoted(sh)[i] == const_terms(sh[i] as int));
    }
}

/// Where the supertype of two array types of one rank is ranked, each axis
/// is one that the two inputs share at that place, or a new variable,
/// numbered from the counter on; where the counter is past every variable of
/// both inputs' shapes, a new axis is none of their axes.
pub proof fn lemma_supertype_fresh_axes(l: AInfo, r: AInfo, n: nat)
    requires
        shape_vars_below(axes_of(l), n),
        shape_vars_below(axes_of(r), n),
    ensures
        asuper(l, r, n) matches Outcome::Found(AInfo::Ranked(e, sh), m) ==> sh.len() == axes_of(l).len() && forall|i: int|
            0 <= i < sh.len() ==> (sh[i] == axes_of(l)[i] && axes_of(l)[i] == axes_of(r)[i]) || (!vars_below(
                #[trigger] sh[i],
                n,
            ) && forall|j: int|
                0 <= j < axes_of(l).len() ==> sh[i] != axes_of(l)[j] && sh[i] != axes_of(r)[j]),
{
    match (l, r) {
        (AInfo::Known(le, lsh, ld), AInfo::Known(re, rsh, rd)) => {
            lemma_vsuper_grows(le, re, n);
            if let Outcome::Found(e, n1) = vsuper(le, re, n) {
                if lsh.len() == rsh.len() {
                    if let Some((sh, n2)) = kmerge(lsh, rsh, n1) {
                        lemma_kmerge_fresh(lsh, rsh, n1);
                        lemma_demoted_below(lsh, n);
                        lemma_demoted_below(rsh, n);
                        assert forall|i: int| 0 <= i < sh.len() implies (sh[i] == axes_of(l)[i] && axes_of(l)[i]
                            == axes_of(r)[i]) || (!vars_below(#[trigger] sh[i], n) && forall|j: int|
                            0 <= j < axes_of(l).len() ==> sh[i] != axes_of(l)[j] && sh[i] != axes_of(r)[j]) by {
                            assert(axes_of(l)[i] == const_terms(lsh[i] as int));
                            assert(axes_of(r)[i] == const_terms(rsh[i] as int));
                            if lsh[i] != rsh[i] {
                                assert(!vars_below(sh[i], n1));
                                assert forall|j: int| 0 <= j < axes_of(l).len() implies sh[i] != axes_of(l)[j]
                                    && sh[i] != axes_of(r)[j] by {
                                    assert(vars_below(axes_of(l)[j], n1));
                                    assert(vars_below(axes_of(r)[j], n1));
                                }
                                assert(!vars_below(sh[i], n));
                            }
                        }
                    }
                }
            }
        },
        (AInfo::Ranked(le, lsh), AInfo::Ranked(re, rsh)) => {
            lemma_rsuper_fresh(le, lsh, re, rsh, n);
        },
        (AInfo::Known(ke, ksh, _), AInfo::Ranked(re, rsh)) => {
            lemma_demoted_below(ksh, n);
            lemma_rsuper_fresh(ke, demoted(ksh), re, rsh, n);
        },
        (AInfo::Ranked(le, lsh), AInfo::Known(ke, ksh, _)) => {
            lemma_demoted_below(ksh, n);
            lemma_rsuper_fresh(ke, demoted(ksh), le, lsh, n);
        },
        _ => {},
    }
}

proof fn lemma_rsuper_fresh(le: VInfo, lsh: Seq<Poly>, re: VInfo, rsh: Seq<Poly>, n: nat)
    requires
        shape_vars_below(lsh, n),
        shape_vars_below(rsh, n),
    ensures
        rsuper(le, lsh, re, rsh, n) matches Outcome::Found(AInfo::Ranked(e, sh), m) ==> sh.len() == lsh.len() && forall|
            i: int,
        |
            0 <= i < sh.len() ==> (sh[i] == lsh[i] && lsh[i] == rsh[i]) || (!vars_below(#[trigger] sh[i], n) && forall|j: int|
                0 <= j < lsh.len() ==> sh[i] != lsh[j] && sh[i] != rsh[j]),
{
    lemma_vsuper_grows(le, re, n);
    if let Outcome::Found(e, n1) = vsuper(le, re, n) {
        if lsh.len() == rsh.len() {
            if let Some((sh, n2)) = rmerge(lsh, rsh, n1) {
                assert(shape_vars_below(lsh, n1));
                assert(shape_vars_below(rsh, n1));
                lemma_rmerge_fresh(lsh, rsh, n1);
                assert forall|i: int| 0 <= i < sh.len() implies (sh[i] == lsh[i] && lsh[i] == rsh[i]) || (!vars_below(
                    #[trigger] sh[i],
                    n,
                ) && forall|j: int| 0 <= j < lsh.len() ==> sh[i] != lsh[j] && sh[i] != rsh[j]) by {
                    if !(sh[i] == lsh[i] && lsh[i] == rsh[i]) {
                        assert(!vars_below(sh[i], n1));
                    }
                }
            }
        }
    }
}

/// An outcome with `p` put before the values found.
pub open spec fn prepend(p: Seq<VInfo>, o: Outcome<Seq<VInfo>>) -> Outcome<Seq<VInfo>> {
    match o {
        Outcome::Found(q, m) => Outcome::Found(p + q, m),
        Outcome::Absent(m) => Outcome::Absent(m),
        Outcome::Unsupported => Outcome::Unsupported,
    }
}

proof fn lemma_hsum_elem(d: Seq<VInfo>, i: int)
    requires
        0 <= i < d.len(),
    ensures
        vh(d[i]) < hsum(d),
    decreases i,
{
    if i > 0 {
        let t = d.subrange(1, d.len() as int);
        lemma_hsum_elem(t, i - 1);
        assert(t[i - 1] == d[i]);
    }
}

proof fn lemma_kmerge_prefix(l: Seq<usize>, r: Seq<usize>, n: nat, j: int)
    requires
        l.len() == r.len(),
        0 <= j <= l.len(),
        kmerge(l, r, n) is Some,
    ensures
        kmerge(l.take(j), r.take(j), n) is Some,
    decreases l.len(),
{
    if j == l.len() {
        assert(l.take(j) =~= l);
        assert(r.take(j) =~= r);
    } else {
        lemma_kmerge_prefix(l.drop_last(), r.drop_last(), n, j);
        assert(l.drop_last().take(j) =~= l.take(j));
        assert(r.drop_last().take(j) =~= r.take(j));
    }
}

proof fn lemma_rmerge_prefix(l: Seq<Poly>, r: Seq<Poly>, n: nat, j: int)
    requires
        l.len() == r.len(),
        0 <= j <= l.len(),
        rmerge(l, r, n) is Some,
    ensures
        rmerge(l.take(j), r.take(j), n) is Some,
    decreases l.len(),
{
    if j == l.len() {
        assert(l.take(j) =~= l);
        assert(r.take(j) =~= r);
    } else {
        lemma_rmerge_prefix(l.drop_last(), r.drop_last(), n, j);
        assert(l.drop_last().take(j) =~= l.take(j));
        assert(r.drop_last().take(j) =~= r.take(j));
    }
}

/// Merges two known shapes of one rank, making a fresh variable for each
/// axis where they differ; also tells whether the shapes are equal.
fn merge_known(l: &Vec<usize>, r: &Vec<usize>, nvars: &mut usize) -> (res: (Vec<Expr>, bool))
    requires
        l.len() == r.len(),
        kmerge(l@, r@, *old(nvars) as nat) is Some,
    ensures
        kmerge(l@, r@, *old(nvars) as nat) == Some((shape_view(res.0@), *final(nvars) as nat)),
        res.1 == (l@ == r@),
{
    let ghost n0 = *nvars as nat;
    let mut acc: Vec<Expr> = Vec::new();
    let mut same = true;
    let mut i: usize = 0;
    assert(l@.take(0) =~= r@.take(0));
    while i < l.len()
        invariant
            i <= l.len(),
            l.len() == r.len(),
            kmerge(l@, r@, n0) is Some,
            kmerge(l@.take(i as int), r@.take(i as int), n0) == Some((shape_view(acc@), *nvars as nat)),
            same == (l@.take(i as int) == r@.take(i as int)),
        decreases l.len() - i,
    {
        proof {
            lemma_kmerge_prefix(l@, r@, n0, i + 1);
            assert(l@.take(i + 1).drop_last() =~= l@.take(i as int));
            assert(r@.take(i + 1).drop_last() =~= r@.take(i as int));
        }
        let ghost before = acc@;
        if l[i] == r[i] {
            let e = Expr::from_usize(l[i]);
            acc.push(e);
            assert(shape_view(acc@) =~= shape_view(before).push(e@));
        } else {
            let e = Expr::new_var(nvars);
            acc.push(e);
            assert(shape_view(acc@) =~= shape_view(before).push(e@));
            same = false;
        }
        proof {
            if same {
                assert(l@.take(i + 1) =~= r@.take(i + 1));
            } else if l@[i as int] != r@[i as int] {
                assert(l@.take(i + 1)[i as int] != r@.take(i + 1)[i as int]);
            } else {
                assert(l@.take(i as int) != r@.take(i as int));
                assert(l@.take(i + 1).drop_last() != r@.take(i + 1).drop_last());
            }
        }
        i = i + 1;
    }
    assert(l@.take(i as int) =~= l@);
    assert(r@.take(i as int) =~= r@);
    (acc, same)
}

/// Merges two symbolic shapes of one rank, making a fresh variable for each
/// axis where they differ.
fn merge_ranked(l: &Vec<Expr>, r: &Vec<Expr>, nvars: &mut usize) -> (res: Vec<Expr>)
    requires
        l.len() == r.len(),
        rmerge(shape_view(l@), shape_view(r@), *old(nvars) as nat) is Some,
    ensures
        rmerge(shape_view(l@), shape_view(r@), *old(nvars) as nat) == Some((shape_view(res@), *final(nvars) as nat)),
{
    let ghost n0 = *nvars as nat;
    let ghost lv = shape_view(l@);
    let ghost rv = shape_view(r@);
    let mut acc: Vec<Expr> = Vec::new();
    let mut i: usize = 0;
    while i < l.len()
        invariant
            i <= l.len(),
            l.len() == r.len(),
            lv == shape_view(l@),
            rv == shape_view(r@),
            rmerge(lv, rv, n0) is Some,
            rmerge(lv.take(i as int), rv.take(i as int), n0) == Some((shape_view(acc@), *nvars as nat)),
        decreases l.len() - i,
    {
        proof {
            lemma_rmerge_prefix(lv, rv, n0, i + 1);
            assert(lv.take(i + 1).drop_last() =~= lv.take(i as int));
            assert(rv.take(i + 1).drop_last() =~= rv.take(i as int));
            assert(lv.take(i + 1).last() == l@[i as int]@);
            assert(rv.take(i + 1).last() == r@[i as int]@);
        }
        let ghost before = acc@;
        if l[i].equals(&r[i]) {
            let e = l[i].duplicate();
            acc.push(e);
            assert(shape_view(acc@) =~= shape_view(before).push(e@));
        } else {
            let e = Expr::new_var(nvars);
            acc.push(e);
            assert(shape_view(acc@) =~= shape_view(before).push(e@));
        }
        i = i + 1;
    }
    assert(lv.take(i as int) =~= lv);
    assert(rv.take(i as int) =~= rv);
    acc
}

/// The element-wise supertypes of two lists of values.
fn data_supertype(ld: &Vec<ValueInfo>, rd: &Vec<ValueInfo>, nvars: &mut usize) -> (res: Option<Vec<ValueInfo>>)
    requires
        !(dsuper(values_view(ld@), values_view(rd@), *old(nvars) as nat) is Unsupported),
    ensures
        res matches Some(v) ==> dsuper(values_view(ld@), values_view(rd@), *old(nvars) as nat) == Outcome::Found(
            values_view(v@),
            *final(nvars) as nat,
        ),
        res is None ==> dsuper(values_view(ld@), values_view(rd@), *old(nvars) as nat) == Outcome::<Seq<VInfo>>::Absent(
            *final(nvars) as nat,
        ),
    decreases hsum(values_view(ld@)) + hsum(values_view(rd@)),
{
    let ghost lv = values_view(ld@);
    let ghost rv = values_view(rd@);
    let ghost n0 = *nvars as nat;
    proof {
        lemma_values_view(ld@);
        lemma_values_view(rd@);
        assert(lv.subrange(0, lv.len() as int) =~= lv);
        assert(rv.subrange(0, rv.len() as int) =~= rv);
        assert(values_view(Seq::<ValueInfo>::empty()) + dsuper(lv, rv, n0)->Found_0 =~= dsuper(lv, rv, n0)->Found_0);
    }
    let k: usize = if ld.len() < rd.len() { ld.len() } else { rd.len() };
    let mut acc: Vec<ValueInfo> = Vec::new();
    let mut i: usize = 0;
    while i < k
        invariant
            i <= k,
            k <= ld.len(),
            k <= rd.len(),
            k == ld.len() || k == rd.len(),
            lv == values_view(ld@),
            rv == values_view(rd@),
            lv.len() == ld.len(),
            rv.len() == rd.len(),
            forall|j: int| 0 <= j < ld.len() ==> #[trigger] lv[j] == vinfo(ld@[j]),
            forall|j: int| 0 <= j < rd.len() ==> #[trigger] rv[j] == vinfo(rd@[j]),
            !(dsuper(lv, rv, n0) is Unsupported),
            n0 == *old(nvars) as nat,
            dsuper(lv, rv, n0) == prepend(
                values_view(acc@),
                dsuper(lv.subrange(i as int, lv.len() as int), rv.subrange(i as int, rv.len() as int), *nvars as nat),
            ),
        decreases k - i,
    {
        let ghost c = *nvars as nat;
        let ghost ls = lv.subrange(i as int, lv.len() as int);
        let ghost rs = rv.subrange(i as int, rv.len() as int);
        proof {
            lemma_hsum_elem(lv, i as int);
            lemma_hsum_elem(rv, i as int);
            assert(ls[0] == lv[i as int]);
            assert(rs[0] == rv[i as int]);
            assert(ls.subrange(1, ls.len() as int) =~= lv.subrange(i + 1, lv.len() as int));
            assert(rs.subrange(1, rs.len() as int) =~= rv.subrange(i + 1, rv.len() as int));
        }
        match ld[i].supertype(&rd[i], nvars) {
            Some(x) => {
                let ghost before = acc@;
                acc.push(x);
                proof {
                    assert(acc@.drop_last() =~= before);
                    let rest = dsuper(lv.subrange(i + 1, lv.len() as int), rv.subrange(i + 1, rv.len() as int), *nvars as nat);
                    if rest is Found {
                        assert(values_view(before) + (seq![vinfo(x)] + rest->Found_0) =~= values_view(acc@) + rest->Found_0);
                    }
                }
            },
            None => {
                proof {
                    assert(ls.len() > 0 && rs.len() > 0);
                    assert(vsuper(ls[0], rs[0], c) == Outcome::<VInfo>::Absent(*nvars as nat));
                    assert(dsuper(ls, rs, c) == Outcome::<Seq<VInfo>>::Absent(*nvars as nat));
                }
                return None;
            },
        }
        i = i + 1;
    }
    proof {
        let ls = lv.subrange(i as int, lv.len() as int);
        let rs = rv.subrange(i as int, rv.len() as int);
        assert(ls.len() == 0 || rs.len() == 0);
        assert(values_view(acc@) + Seq::<VInfo>::empty() =~= values_view(acc@));
    }
    Some(acc)
}

/// The least ranked array type over two element types and two symbolic
/// shapes.
fn ranked_supertype(
    le: &ValueInfo,
    lsh: &Vec<Expr>,
    re: &ValueInfo,
    rsh: &Vec<Expr>,
    nvars: &mut usize,
) -> (res: Option<ArrayInfo>)
    requires
        !(rsuper(vinfo(*le), shape_view(lsh@), vinfo(*re), shape_view(rsh@), *old(nvars) as nat) is Unsupported),
    ensures
        res matches Some(v) ==> rsuper(vinfo(*le), shape_view(lsh@), vinfo(*re), shape_view(rsh@), *old(nvars) as nat)
            == Outcome::Found(ainfo(v), *final(nvars) as nat),
        res is None ==> rsuper(vinfo(*le), shape_view(lsh@), vinfo(*re), shape_view(rsh@), *old(nvars) as nat)
            == Outcome::<AInfo>::Absent(*final(nvars) as nat),
    decreases vh(vinfo(*le)) + vh(vinfo(*re)) + 1,
{
    let element_type = match le.supertype(re, nvars) {
        Some(e) => e,
        None => return None,
    };
    let shape = merge_ranked(lsh, rsh, nvars);
    Some(ArrayInfo::Ranked { element_type, shape })
}

impl ArrayInfo {
    /// The least array type that holds both arrays: element types are joined,
    /// axes that differ become fresh variables numbered from `*nvars`, and a
    /// known value stays known only where both shapes agree and every
    /// element has a supertype.
    pub fn supertype(&self, rhs: &Self, nvars: &mut usize) -> (r: Option<Self>)
        requires
            !(asuper(ainfo(*self), ainfo(*rhs), *old(nvars) as nat) is Unsupported),
        ensures
            r matches Some(v) ==> asuper(ainfo(*self), ainfo(*rhs), *old(nvars) as nat) == Outcome::Found(
                ainfo(v),
                *final(nvars) as nat,
            ),
            r is None ==> asuper(ainfo(*self), ainfo(*rhs), *old(nvars) as nat) == Outcome::<AInfo>::Absent(
                *final(nvars) as nat,
            ),
        decreases ah(ainfo(*self)) + ah(ainfo(*rhs)),
    {
        match (self, rhs) {
            (
                ArrayInfo::Known { element_type: le, value: lv },
                ArrayInfo::Known { element_type: re, value: rv },
            ) => {
                let element_type = match le.supertype(re, nvars) {
                    Some(e) => e,
                    None => return None,
                };
                let (shape, same) = merge_known(&lv.shape, &rv.shape, nvars);
                if same {
                    match data_supertype(&lv.data, &rv.data, nvars) {
                        Some(data) => Some(
                            ArrayInfo::Known {
                                element_type,
                                value: ArrayValue { shape: clone_usizes(&lv.shape), data },
                            },
                        ),
                        None => Some(ArrayInfo::Ranked { element_type, shape }),
                    }
                } else {
                    Some(ArrayInfo::Ranked { element_type, shape })
                }
            },
            (
                ArrayInfo::Ranked { element_type: le, shape: lsh },
                ArrayInfo::Ranked { element_type: re, shape: rsh },
            ) => ranked_supertype(le, lsh, re, rsh, nvars),
            (
                ArrayInfo::Unranked { element_type: le, .. },
                ArrayInfo::Unranked { element_type: re, .. },
            ) => {
                match le.supertype(re, nvars) {
                    Some(_) => {
                        proof {
                            assert(false);
                        }
                        None
                    },
                    None => None,
                }
            },
            (
                ArrayInfo::Known { element_type: ke, value },
                ArrayInfo::Ranked { element_type: re, shape: rsh },
            ) => {
                let ksh = demote_known_shape(value.shape.as_slice());
                ranked_supertype(ke, &ksh, re, rsh, nvars)
            },
            (
                ArrayInfo::Ranked { element_type: le, shape: lsh },
                ArrayInfo::Known { element_type: ke, value },
            ) => {
                let ksh = demote_known_shape(value.shape.as_slice());
                ranked_supertype(ke, &ksh, le, lsh, nvars)
            },
            _ => {
                proof {
                    assert(false);
                }
                None
            },
        }
    }
}

impl ValueInfo {
    /// The least value type that holds both values, numbering fresh shape
    /// variables from `*nvars`.
    pub fn supertype(&self, rhs: &Self, nvars: &mut usize) -> (r: Option<Self>)
        requires
            !(vsuper(vinfo(*self), vinfo(*rhs), *old(nvars) as nat) is Unsupported),
        ensures
            r matches Some(v) ==> vsuper(vinfo(*self), vinfo(*rhs), *old(nvars) as nat) == Outcome::Found(
                vinfo(v),
                *final(nvars) as nat,
            ),
            r is None ==> vsuper(vinfo(*self), vinfo(*rhs), *old(nvars) as nat) == Outcome::<VInfo>::Absent(
                *final(nvars) as nat,
            ),
        decreases vh(vinfo(*self)) + vh(vinfo(*rhs)),
    {
        match (self, rhs) {
            (ValueInfo::Scalar(l), ValueInfo::Scalar(r)) => match scalar_supertype(*l, *r) {
                Some(x) => Some(ValueInfo::Scalar(x)),
                None => None,
            },
            (ValueInfo::Array(l), ValueInfo::Array(r)) => match l.supertype(r, nvars) {
                Some(a) => Some(ValueInfo::Array(Box::new(a))),
                None => None,
            },
            _ => None,
        }
    }
}


/// Variable substitutions: each pairs a variable's index with the
/// expression it stands for.
pub open spec fn substs_view(v: Seq<(usize, Expr)>) -> Seq<(nat, Poly)> {
    v.map_values(|p: (usize, Expr)| (p.0 as nat, p.1@))
}

/// Whether a scalar fits the scalar of a monomorphized function's input:
/// a value the function was made for must be known and equal, and an input
/// that may be infinite needs a function made for that.
pub open spec fn smatch(t: ScalarInfo, f: ScalarInfo) -> bool {
    match (t, f) {
        (ScalarInfo::Bool(tv), ScalarInfo::Bool(fv)) => fv is None || tv == fv,
        (ScalarInfo::Int(tv, ti), ScalarInfo::Int(fv, fi)) => fi || (!ti && (fv is None || tv == fv)),
        (ScalarInfo::Float(tv), ScalarInfo::Float(fv)) => match fv {
            None => true,
            Some(y) => tv matches Some(x) && float_eq(x, y),
        },
        (ScalarInfo::Char(tv), ScalarInfo::Char(fv)) => fv is None || tv == fv,
        _ => false,
    }
}

/// Whether each known axis length equals the constant axis of a function's
/// shape, the length read as a signed integer.
pub open spec fn known_axes_match(t: Seq<usize>, f: Seq<Poly>) -> bool {
    t.len() == f.len() && forall|i: int| 0 <= i < t.len() ==> const_of(#[trigger] f[i]) == Some((t[i] as isize) as int)
}

/// The substitutions that make a function's symbolic shape `f` the shape
/// `t`: constant axes must agree, and every other axis of `f` must be a
/// single variable, which is bound to the axis of `t`.
pub open spec fn axes_match(t: Seq<Poly>, f: Seq<Poly>) -> Option<Seq<(nat, Poly)>>
    decreases t.len(),
{
    if t.len() == 0 || f.len() == 0 {
        Some(seq![])
    } else {
        match axes_match(t.drop_last(), f.drop_last()) {
            None => None,
            Some(p) => match const_of(t.last()) {
                Some(c) => if const_of(f.last()) == Some(c) {
                    Some(p)
                } else {
                    None
                },
                None => match single_var_of(f.last()) {
                    Some(k) => Some(p.push((k, t.last()))),
                    None => None,
                },
            },
        }
    }
}

/// Whether value `t` can be passed to a function monomorphized for input
/// `f`, and with which substitutions of the function's shape variables.
pub open spec fn mmatch(t: VInfo, f: VInfo) -> Option<Seq<(nat, Poly)>>
    decreases t,
{
    match (t, f) {
        (VInfo::Scalar(x), VInfo::Scalar(y)) => if smatch(x, y) {
            Some(seq![])
        } else {
            None
        },
        (VInfo::Array(ta), VInfo::Array(fa)) => match (*ta, *fa) {
            (AInfo::Known(te, tsh, _), AInfo::Ranked(fe, fsh)) => if known_axes_match(tsh, fsh) {
                mmatch(te, fe)
            } else {
                None
            },
            (AInfo::Ranked(te, tsh), AInfo::Ranked(fe, fsh)) => if tsh.len() != fsh.len() {
                None
            } else {
                match mmatch(te, fe) {
                    None => None,
                    Some(p) => match axes_match(tsh, fsh) {
                        None => None,
                        Some(q) => Some(p + q),
                    },
                }
            },
            _ => None,
        },
        _ => None,
    }
}

/// A value that may stand for an infinity can be passed only to a function
/// made for inputs that may be infinite; and a function made for one known
/// scalar (a finite integer, a boolean, a character) takes only that very
/// scalar, known, and one made for a known double only a double equal to
/// it. These hold at the bottom scalar of values of any shape.
pub proof fn lemma_match_infinity(t: VInfo, f: VInfo)
    ensures
        (mmatch(t, f) is Some && (scalar_of(t) matches Some(ScalarInfo::Int(_, true)))) ==> (scalar_of(f) matches Some(
            ScalarInfo::Int(_, true),
        )),
        (mmatch(t, f) is Some && (scalar_of(f) matches Some(ScalarInfo::Int(Some(_), false)))) ==> scalar_of(t)
            == scalar_of(f),
        (mmatch(t, f) is Some && (scalar_of(f) matches Some(ScalarInfo::Bool(Some(_))))) ==> scalar_of(t) == scalar_of(f),
        (mmatch(t, f) is Some && (scalar_of(f) matches Some(ScalarInfo::Char(Some(_))))) ==> scalar_of(t) == scalar_of(f),
        mmatch(t, f) is Some ==> match scalar_of(f) {
            Some(ScalarInfo::Float(Some(y))) => scalar_of(t) matches Some(ScalarInfo::Float(Some(x))) && float_eq(x, y),
            _ => true,
        },
    decreases t,
{
    match (t, f) {
        (VInfo::Array(ta), VInfo::Array(fa)) => match (*ta, *fa) {
            (AInfo::Known(te, _, _), AInfo::Ranked(fe, _)) => lemma_match_infinity(te, fe),
            (AInfo::Ranked(te, _), AInfo::Ranked(fe, _)) => lemma_match_infinity(te, fe),
            _ => {},
        },
        _ => {},
    }
}

/// In particular an integer that may be infinite never matches a function
/// input made for finite integers, whatever the two values.
pub proof fn lemma_infinite_int_needs_infinite_input(v: Option<i64>, w: Option<i64>)
    ensures
        mmatch(VInfo::Scalar(ScalarInfo::Int(v, true)), VInfo::Scalar(ScalarInfo::Int(w, false))) is None,
{
    lemma_match_infinity(VInfo::Scalar(ScalarInfo::Int(v, true)), VInfo::Scalar(ScalarInfo::Int(w, false)));
}

fn scalar_match(t: ScalarInfo, f: ScalarInfo) -> (r: bool)
    ensures
        r == smatch(t, f),
{
    match (t, f) {
        (ScalarInfo::Bool(tv), ScalarInfo::Bool(fv)) => fv.is_none() || same_bool(tv, fv),
        (ScalarInfo::Int(tv, ti), ScalarInfo::Int(fv, fi)) => fi || (!ti && (fv.is_none() || same_int(tv, fv))),
        (ScalarInfo::Float(tv), ScalarInfo::Float(fv)) => match fv {
            None => true,
            Some(y) => match tv {
                Some(x) => float_equals(x, y),
                None => false,
            },
        },
        (ScalarInfo::Char(tv), ScalarInfo::Char(fv)) => fv.is_none() || same_char(tv, fv),
        _ => false,
    }
}

impl ValueInfo {
    /// Whether this value can be passed to a function monomorphized for the
    /// input `func_input_info`; if so, the substitutions of the function's
    /// shape variables that make its input this value.
    pub fn match_monomorphization(&self, func_input_info: &Self) -> (r: Option<Vec<(usize, Expr)>>)
        ensures
            r is Some <==> mmatch(vinfo(*self), vinfo(*func_input_info)) is Some,
            r matches Some(v) ==> mmatch(vinfo(*self), vinfo(*func_input_info)) == Some(substs_view(v@)),
        decreases self,
    {
        match (self, func_input_info) {
            (ValueInfo::Scalar(x), ValueInfo::Scalar(y)) => {
                if scalar_match(*x, *y) {
                    let v: Vec<(usize, Expr)> = Vec::new();
                    assert(substs_view(v@) =~= seq![]);
                    Some(v)
                } else {
                    None
                }
            },
            (ValueInfo::Array(ta), ValueInfo::Array(fa)) => {
                match (&**ta, &**fa) {
                    (
                        ArrayInfo::Known { element_type: te, value: tv },
                        ArrayInfo::Ranked { element_type: fe, shape: fsh },
                    ) => {
                        assert(vinfo(*self) == VInfo::Array(Box::new(ainfo(**ta))));
                        assert(ainfo(**ta) == AInfo::Known(vinfo(*te), tv.shape@, values_view(tv.data@)));
                        assert(ainfo(**fa) == AInfo::Ranked(vinfo(*fe), shape_view(fsh@)));
                        assert(mmatch(vinfo(*self), vinfo(*func_input_info)) == if known_axes_match(
                            tv.shape@,
                            shape_view(fsh@),
                        ) {
                            mmatch(vinfo(*te), vinfo(*fe))
                        } else {
                            None
                        });
                        if tv.shape.len() != fsh.len() {
                            return None;
                        }
                        let mut i: usize = 0;
                        while i < fsh.len()
                            invariant
                                i <= fsh.len(),
                                tv.shape.len() == fsh.len(),
                                mmatch(vinfo(*self), vinfo(*func_input_info)) == if known_axes_match(
                                    tv.shape@,
                                    shape_view(fsh@),
                                ) {
                                    mmatch(vinfo(*te), vinfo(*fe))
                                } else {
                                    None
                                },
                                forall|j: int| 0 <= j < i ==> const_of(#[trigger] shape_view(fsh@)[j])
                                    == Some((tv.shape@[j] as isize) as int),
                            decreases fsh.len() - i,
                        {
                            let ax: isize = tv.shape[i] as isize;
                            match fsh[i].as_const() {
                                Some(c) => {
                                    if c != ax {
                                        assert(const_of(shape_view(fsh@)[i as int]) != Some((tv.shape@[i as int] as isize) as int));
                                        return None;
                                    }
                                },
                                None => {
                                    assert(const_of(shape_view(fsh@)[i as int]) != Some((tv.shape@[i as int] as isize) as int));
                                    return None;
                                },
                            }
                            i = i + 1;
                        }
                        te.match_monomorphization(fe)
                    },
                    (
                        ArrayInfo::Ranked { element_type: te, shape: tsh },
                        ArrayInfo::Ranked { element_type: fe, shape: fsh },
                    ) => {
                        assert(mmatch(vinfo(*self), vinfo(*func_input_info)) == if tsh@.len() != fsh@.len() {
                            None
                        } else {
                            match mmatch(vinfo(*te), vinfo(*fe)) {
                                None => None,
                                Some(p) => match axes_match(shape_view(tsh@), shape_view(fsh@)) {
                                    None => None,
                                    Some(q) => Some(p + q),
                                },
                            }
                        });
                        if tsh.len() != fsh.len() {
                            return None;
                        }
                        let mut substs = match te.match_monomorphization(fe) {
                            Some(v) => v,
                            None => return None,
                        };
                        let ghost p = substs_view(substs@);
                        let ghost tv = shape_view(tsh@);
                        let ghost fv = shape_view(fsh@);
                        let mut i: usize = 0;
                        assert(p + seq![] =~= p);
                        while i < tsh.len()
                            invariant
                                i <= tsh.len(),
                                tsh.len() == fsh.len(),
                                mmatch(vinfo(*te), vinfo(*fe)) == Some(p),
                                mmatch(vinfo(*self), vinfo(*func_input_info)) == match axes_match(tv, fv) {
                                    None => None,
                                    Some(q) => Some(p + q),
                                },
                                tv == shape_view(tsh@),
                                fv == shape_view(fsh@),
                                axes_match(tv.take(i as int), fv.take(i as int)) matches Some(q) && substs_view(substs@) == p + q,
                            decreases tsh.len() - i,
                        {
                            proof {
                                assert(tv.take(i + 1).drop_last() =~= tv.take(i as int));
                                assert(fv.take(i + 1).drop_last() =~= fv.take(i as int));
                                assert(tv.take(i + 1).last() == tsh@[i as int]@);
                                assert(fv.take(i + 1).last() == fsh@[i as int]@);
                            }
                            let ghost q = axes_match(tv.take(i as int), fv.take(i as int))->Some_0;
                            match tsh[i].as_const() {
                                Some(c) => {
                                    match fsh[i].as_const() {
                                        Some(d) => {
                                            if d != c {
                                                proof {
                                                    lemma_axes_match_prefix(tv, fv, i as int + 1);
                                                }
                                                return None;
                                            }
                                        },
                                        None => {
                                            proof {
                                                lemma_axes_match_prefix(tv, fv, i as int + 1);
                                            }
                                            return None;
                                        },
                                    }
                                },
                                None => {
                                    match fsh[i].as_single_var() {
                                        Some(k) => {
                                            let e = tsh[i].duplicate();
                                            let ghost before = substs@;
                                            substs.push((k, e));
                                            assert(substs_view(substs@) =~= substs_view(before).push((k as nat, e@)));
                                            assert(p + q.push((k as nat, e@)) =~= (p + q).push((k as nat, e@)));
                                        },
                                        None => {
                                            proof {
                                                lemma_axes_match_prefix(tv, fv, i as int + 1);
                                            }
                                            return None;
                                        },
                                    }
                                },
                            }
                            i = i + 1;
                        }
                        assert(tv.take(i as int) =~= tv);
                        assert(fv.take(i as int) =~= fv);
                        Some(substs)
                    },
                    _ => None,
                }
            },
            _ => None,
        }
    }
}

/// A failed prefix fails the whole.
proof fn lemma_axes_match_prefix(t: Seq<Poly>, f: Seq<Poly>, j: int)
    requires
        t.len() == f.len(),
        0 <= j <= t.len(),
        axes_match(t.take(j), f.take(j)) is None,
    ensures
        axes_match(t, f) is None,
    decreases t.len(),
{
    if j == t.len() {
        assert(t.take(j) =~= t);
        assert(f.take(j) =~= f);
    } else {
        assert(t.drop_last().take(j) =~= t.take(j));
        assert(f.drop_last().take(j) =~= f.take(j));
        lemma_axes_match_prefix(t.drop_last(), f.drop_last(), j);
    }
}


/// A scalar type with its value forgotten.
pub open spec fn forget(s: ScalarInfo) -> ScalarInfo {
    match s {
        ScalarInfo::Bool(_) => ScalarInfo::Bool(None),
        ScalarInfo::Int(_, inf) => ScalarInfo::Int(None, inf),
        ScalarInfo::Float(_) => ScalarInfo::Float(None),
        ScalarInfo::Char(_) => ScalarInfo::Char(None),
    }
}

/// A shape with every non-constant axis replaced by a fresh variable,
/// numbered in order from `n`, together with the substitutions that give
/// back the replaced axes.
pub open spec fn freshen(sh: Seq<Poly>, n: nat) -> Option<(Seq<Poly>, Seq<(nat, Poly)>, nat)>
    decreases sh.len(),
{
    if sh.len() == 0 {
        Some((seq![], seq![], n))
    } else {
        match freshen(sh.drop_last(), n) {
            None => None,
            Some((p, q, m)) => if const_of(sh.last()) is Some {
                Some((p.push(sh.last()), q, m))
            } else if m < usize::MAX {
                Some((p.push(var_poly(m)), q.push((m, sh.last())), m + 1))
            } else {
                None
            },
        }
    }
}

/// The type a function is monomorphized for when called with a value of
/// type `v`: scalar values are forgotten, known arrays become ranked, and
/// unknown axes become fresh variables; with the substitutions that give
/// back the replaced axes. Absent for unranked arrays.
pub open spec fn fsuper(v: VInfo, n: nat) -> Outcome<(VInfo, Seq<(nat, Poly)>)>
    decreases v,
{
    match v {
        VInfo::Scalar(x) => Outcome::Found((VInfo::Scalar(forget(x)), seq![]), n),
        VInfo::Array(a) => match *a {
            AInfo::Known(e, sh, _) => match fsuper(e, n) {
                Outcome::Found((fe, p), m) => if dims_fit(sh) {
                    Outcome::Found((VInfo::Array(Box::new(AInfo::Ranked(fe, demoted(sh)))), p), m)
                } else {
                    Outcome::Unsupported
                },
                Outcome::Absent(m) => Outcome::Absent(m),
                Outcome::Unsupported => Outcome::Unsupported,
            },
            AInfo::Ranked(e, sh) => match fsuper(e, n) {
                Outcome::Found((fe, p), m) => match freshen(sh, m) {
                    Some((sh2, q, m2)) => Outcome::Found((VInfo::Array(Box::new(AInfo::Ranked(fe, sh2))), p + q), m2),
                    None => Outcome::Unsupported,
                },
                Outcome::Absent(m) => Outcome::Absent(m),
                Outcome::Unsupported => Outcome::Unsupported,
            },
            AInfo::Unranked(_, _, _) => Outcome::Absent(n),
        },
        VInfo::Mapping(k, val) => match fsuper(*k, n) {
            Outcome::Found((fk, p), m) => match fsuper(*val, m) {
                Outcome::Found((fv, q), m2) => Outcome::Found((VInfo::Mapping(Box::new(fk), Box::new(fv)), p + q), m2),
                Outcome::Absent(m2) => Outcome::Absent(m2),
                Outcome::Unsupported => Outcome::Unsupported,
            },
            Outcome::Absent(m) => Outcome::Absent(m),
            Outcome::Unsupported => Outcome::Unsupported,
        },
        VInfo::Struct(fs) => match ffields(fs, n) {
            Outcome::Found((fs2, p), m) => Outcome::Found((VInfo::Struct(fs2), p), m),
            Outcome::Absent(m) => Outcome::Absent(m),
            Outcome::Unsupported => Outcome::Unsupported,
        },
        VInfo::Enum(vs) => match fvariants(vs, n) {
            Outcome::Found((vs2, p), m) => Outcome::Found((VInfo::Enum(vs2), p), m),
            Outcome::Absent(m) => Outcome::Absent(m),
            Outcome::Unsupported => Outcome::Unsupported,
        },
    }
}

/// `fsuper` of each field, in order.
pub open spec fn ffields(fs: Seq<(Seq<char>, VInfo)>, n: nat) -> Outcome<(Seq<(Seq<char>, VInfo)>, Seq<(nat, Poly)>)>
    decreases fs,
{
    if fs.len() == 0 {
        Outcome::Found((seq![], seq![]), n)
    } else {
        match fsuper(fs[0].1, n) {
            Outcome::Found((f, p), m) => match ffields(fs.subrange(1, fs.len() as int), m) {
                Outcome::Found((rest, q), m2) => Outcome::Found((seq![(fs[0].0, f)] + rest, p + q), m2),
                Outcome::Absent(m2) => Outcome::Absent(m2),
                Outcome::Unsupported => Outcome::Unsupported,
            },
            Outcome::Absent(m) => Outcome::Absent(m),
            Outcome::Unsupported => Outcome::Unsupported,
        }
    }
}

/// `ffields` of each variant, in order.
pub open spec fn fvariants(vs: Seq<(Seq<char>, Seq<(Seq<char>, VInfo)>)>, n: nat) -> Outcome<
    (Seq<(Seq<char>, Seq<(Seq<char>, VInfo)>)>, Seq<(nat, Poly)>),
>
    decreases vs,
{
    if vs.len() == 0 {
        Outcome::Found((seq![], seq![]), n)
    } else {
        match ffields(vs[0].1, n) {
            Outcome::Found((f, p), m) => match fvariants(vs.subrange(1, vs.len() as int), m) {
                Outcome::Found((rest, q), m2) => Outcome::Found((seq![(vs[0].0, f)] + rest, p + q), m2),
                Outcome::Absent(m2) => Outcome::Absent(m2),
                Outcome::Unsupported => Outcome::Unsupported,
            },
            Outcome::Absent(m) => Outcome::Absent(m),
            Outcome::Unsupported => Outcome::Unsupported,
        }
    }
}


/// An outcome with `a` and `p` put before the values and substitutions found.
pub open spec fn fprepend<A>(a: Seq<A>, p: Seq<(nat, Poly)>, o: Outcome<(Seq<A>, Seq<(nat, Poly)>)>) -> Outcome<
    (Seq<A>, Seq<(nat, Poly)>),
> {
    match o {
        Outcome::Found((x, q), m) => Outcome::Found((a + x, p + q), m),
        Outcome::Absent(m) => Outcome::Absent(m),
        Outcome::Unsupported => Outcome::Unsupported,
    }
}

proof fn lemma_freshen_prefix(sh: Seq<Poly>, n: nat, j: int)
    requires
        0 <= j <= sh.len(),
        freshen(sh, n) is Some,
    ensures
        freshen(sh.take(j), n) is Some,
    decreases sh.len(),
{
    if j == sh.len() {
        assert(sh.take(j) =~= sh);
    } else {
        assert(sh.drop_last().take(j) =~= sh.take(j));
        lemma_freshen_prefix(sh.drop_last(), n, j);
    }
}

/// Appends substitutions.
fn append_substs(dst: &mut Vec<(usize, Expr)>, src: Vec<(usize, Expr)>)
    ensures
        substs_view(final(dst)@) == substs_view(old(dst)@) + substs_view(src@),
{
    let mut src = src;
    let ghost a = dst@;
    let ghost b = src@;
    dst.append(&mut src);
    assert(substs_view(a + b) =~= substs_view(a) + substs_view(b));
}

/// Replaces every non-constant axis with a fresh variable.
fn freshen_shape(sh: &Vec<Expr>, nvars: &mut usize) -> (res: (Vec<Expr>, Vec<(usize, Expr)>))
    requires
        freshen(shape_view(sh@), *old(nvars) as nat) is Some,
    ensures
        freshen(shape_view(sh@), *old(nvars) as nat) == Some(
            (shape_view(res.0@), substs_view(res.1@), *final(nvars) as nat),
        ),
{
    let ghost n0 = *nvars as nat;
    let ghost v = shape_view(sh@);
    let mut shape: Vec<Expr> = Vec::new();
    let mut substs: Vec<(usize, Expr)> = Vec::new();
    let mut i: usize = 0;
    assert(substs_view(substs@) =~= seq![]);
    while i < sh.len()
        invariant
            i <= sh.len(),
            v == shape_view(sh@),
            freshen(v, n0) is Some,
            freshen(v.take(i as int), n0) == Some((shape_view(shape@), substs_view(substs@), *nvars as nat)),
        decreases sh.len() - i,
    {
        proof {
            lemma_freshen_prefix(v, n0, i + 1);
            assert(v.take(i + 1).drop_last() =~= v.take(i as int));
            assert(v.take(i + 1).last() == sh@[i as int]@);
        }
        let ghost s0 = shape@;
        let ghost t0 = substs@;
        if sh[i].as_const().is_some() {
            let e = sh[i].duplicate();
            shape.push(e);
            assert(shape_view(shape@) =~= shape_view(s0).push(e@));
        } else {
            let k = *nvars;
            let var = Expr::new_var(nvars);
            let e = sh[i].duplicate();
            shape.push(var);
            substs.push((k, e));
            assert(shape_view(shape@) =~= shape_view(s0).push(var@));
            assert(substs_view(substs@) =~= substs_view(t0).push((k as nat, e@)));
        }
        i = i + 1;
    }
    assert(v.take(i as int) =~= v);
    (shape, substs)
}

/// `func_supertype` of each field, in order.
fn fields_func_supertype(fields: &Vec<(String, ValueInfo)>, nvars: &mut usize) -> (res: Option<
    (Vec<(String, ValueInfo)>, Vec<(usize, Expr)>),
>)
    requires
        !(ffields(fields_view(fields@), *old(nvars) as nat) is Unsupported),
    ensures
        res matches Some((f, p)) ==> ffields(fields_view(fields@), *old(nvars) as nat) == Outcome::Found(
            (fields_view(f@), substs_view(p@)),
            *final(nvars) as nat,
        ),
        res is None ==> ffields(fields_view(fields@), *old(nvars) as nat) == Outcome::<
            (Seq<(Seq<char>, VInfo)>, Seq<(nat, Poly)>),
        >::Absent(*final(nvars) as nat),
    decreases fields,
{
    let ghost fv = fields_view(fields@);
    let ghost n0 = *nvars as nat;
    proof {
        lemma_fields_view(fields@);
        assert(fv.subrange(0, fv.len() as int) =~= fv);
        if ffields(fv, n0) is Found {
            let x = ffields(fv, n0)->Found_0;
            assert(Seq::<(Seq<char>, VInfo)>::empty() + x.0 =~= x.0);
            assert(Seq::<(nat, Poly)>::empty() + x.1 =~= x.1);
        }
    }
    let mut acc: Vec<(String, ValueInfo)> = Vec::new();
    let mut substs: Vec<(usize, Expr)> = Vec::new();
    assert(fields_view(acc@) =~= seq![]);
    assert(substs_view(substs@) =~= seq![]);
    let mut i: usize = 0;
    while i < fields.len()
        invariant
            i <= fields.len(),
            fv == fields_view(fields@),
            fv.len() == fields.len(),
            forall|j: int| 0 <= j < fields.len() ==> #[trigger] fv[j] == (fields@[j].0@, vinfo(fields@[j].1)),
            n0 == *old(nvars) as nat,
            !(ffields(fv, n0) is Unsupported),
            ffields(fv, n0) == fprepend(
                fields_view(acc@),
                substs_view(substs@),
                ffields(fv.subrange(i as int, fv.len() as int), *nvars as nat),
            ),
        decreases fields.len() - i,
    {
        let ghost c = *nvars as nat;
        let ghost rest = fv.subrange(i as int, fv.len() as int);
        proof {
            assert(rest[0] == fv[i as int]);
            assert(rest.subrange(1, rest.len() as int) =~= fv.subrange(i + 1, fv.len() as int));
        }
        match fields[i].1.func_supertype(nvars) {
            Some((f, p)) => {
                let name = copy_string(&fields[i].0);
                let ghost a0 = acc@;
                let ghost s0 = substs@;
                acc.push((name, f));
                append_substs(&mut substs, p);
                proof {
                    assert(acc@.drop_last() =~= a0);
                    let tail = ffields(fv.subrange(i + 1, fv.len() as int), *nvars as nat);
                    if tail is Found {
                        let x = tail->Found_0;
                        assert(fields_view(a0) + (seq![(fv[i as int].0, vinfo(f))] + x.0) =~= fields_view(acc@) + x.0);
                        assert(substs_view(s0) + (substs_view(p@) + x.1) =~= substs_view(substs@) + x.1);
                    }
                }
            },
            None => {
                proof {
                    assert(ffields(rest, c) == Outcome::<(Seq<(Seq<char>, VInfo)>, Seq<(nat, Poly)>)>::Absent(*nvars as nat));
                }
                return None;
            },
        }
        i = i + 1;
    }
    proof {
        let rest = fv.subrange(i as int, fv.len() as int);
        assert(rest.len() == 0);
        assert(fields_view(acc@) + Seq::<(Seq<char>, VInfo)>::empty() =~= fields_view(acc@));
        assert(substs_view(substs@) + Seq::<(nat, Poly)>::empty() =~= substs_view(substs@));
    }
    Some((acc, substs))
}

/// `fields_func_supertype` of each variant, in order.
fn variants_func_supertype(variants: &Vec<(String, StructInfo)>, nvars: &mut usize) -> (res: Option<
    (Vec<(String, StructInfo)>, Vec<(usize, Expr)>),
>)
    requires
        !(fvariants(variants_view(variants@), *old(nvars) as nat) is Unsupported),
    ensures
        res matches Some((f, p)) ==> fvariants(variants_view(variants@), *old(nvars) as nat) == Outcome::Found(
            (variants_view(f@), substs_view(p@)),
            *final(nvars) as nat,
        ),
        res is None ==> fvariants(variants_view(variants@), *old(nvars) as nat) == Outcome::<
            (Seq<(Seq<char>, Seq<(Seq<char>, VInfo)>)>, Seq<(nat, Poly)>),
        >::Absent(*final(nvars) as nat),
    decreases variants,
{
    let ghost vv = variants_view(variants@);
    let ghost n0 = *nvars as nat;
    proof {
        lemma_variants_view(variants@);
        assert(vv.subrange(0, vv.len() as int) =~= vv);
        if fvariants(vv, n0) is Found {
            let x = fvariants(vv, n0)->Found_0;
            assert(Seq::<(Seq<char>, Seq<(Seq<char>, VInfo)>)>::empty() + x.0 =~= x.0);
            assert(Seq::<(nat, Poly)>::empty() + x.1 =~= x.1);
        }
    }
    let mut acc: Vec<(String, StructInfo)> = Vec::new();
    let mut substs: Vec<(usize, Expr)> = Vec::new();
    assert(variants_view(acc@) =~= seq![]);
    assert(substs_view(substs@) =~= seq![]);
    let mut i: usize = 0;
    while i < variants.len()
        invariant
            i <= variants.len(),
            vv == variants_view(variants@),
            vv.len() == variants.len(),
            forall|j: int| 0 <= j < variants.len() ==> #[trigger] vv[j] == (variants@[j].0@, fields_view(variants@[j].1.fields@)),
            n0 == *old(nvars) as nat,
            !(fvariants(vv, n0) is Unsupported),
            fvariants(vv, n0) == fprepend(
                variants_view(acc@),
                substs_view(substs@),
                fvariants(vv.subrange(i as int, vv.len() as int), *nvars as nat),
            ),
        decreases variants.len() - i,
    {
        let ghost c = *nvars as nat;
        let ghost rest = vv.subrange(i as int, vv.len() as int);
        proof {
            assert(rest[0] == vv[i as int]);
            assert(rest.subrange(1, rest.len() as int) =~= vv.subrange(i + 1, vv.len() as int));
        }
        match fields_func_supertype(&variants[i].1.fields, nvars) {
            Some((f, p)) => {
                let name = copy_string(&variants[i].0);
                let ghost a0 = acc@;
                let ghost s0 = substs@;
                acc.push((name, StructInfo { fields: f }));
                append_substs(&mut substs, p);
                proof {
                    assert(acc@.drop_last() =~= a0);
                    let tail = fvariants(vv.subrange(i + 1, vv.len() as int), *nvars as nat);
                    if tail is Found {
                        let x = tail->Found_0;
                        assert(variants_view(a0) + (seq![(vv[i as int].0, fields_view(f@))] + x.0) =~= variants_view(acc@) + x.0);
                        assert(substs_view(s0) + (substs_view(p@) + x.1) =~= substs_view(substs@) + x.1);
                    }
                }
            },
            None => {
                proof {
                    assert(fvariants(rest, c) == Outcome::<(Seq<(Seq<char>, Seq<(Seq<char>, VInfo)>)>, Seq<(nat, Poly)>)>::Absent(*nvars as nat));
                }
                return None;
            },
        }
        i = i + 1;
    }
    proof {
        let rest = vv.subrange(i as int, vv.len() as int);
        assert(rest.len() == 0);
        assert(variants_view(acc@) + Seq::<(Seq<char>, Seq<(Seq<char>, VInfo)>)>::empty() =~= variants_view(acc@));
        assert(substs_view(substs@) + Seq::<(nat, Poly)>::empty() =~= substs_view(substs@));
    }
    Some((acc, substs))
}

impl ValueInfo {
    /// The type to monomorphize a function for when it is called with this
    /// value, with the substitutions that turn its fresh shape variables back
    /// into this value's axes; `None` for an unranked array. Fresh variables
    /// are numbered from `*nvars`.
    pub fn func_supertype(&self, nvars: &mut usize) -> (r: Option<(Self, Vec<(usize, Expr)>)>)
        requires
            !(fsuper(vinfo(*self), *old(nvars) as nat) is Unsupported),
        ensures
            r matches Some((v, p)) ==> fsuper(vinfo(*self), *old(nvars) as nat) == Outcome::Found(
                (vinfo(v), substs_view(p@)),
                *final(nvars) as nat,
            ),
            r is None ==> fsuper(vinfo(*self), *old(nvars) as nat) == Outcome::<(VInfo, Seq<(nat, Poly)>)>::Absent(
                *final(nvars) as nat,
            ),
        decreases self,
    {
        match self {
            ValueInfo::Scalar(x) => {
                let y = match x {
                    ScalarInfo::Bool(_) => ScalarInfo::Bool(None),
                    ScalarInfo::Int(_, inf) => ScalarInfo::Int(None, *inf),
                    ScalarInfo::Float(_) => ScalarInfo::Float(None),
                    ScalarInfo::Char(_) => ScalarInfo::Char(None),
                };
                let v: Vec<(usize, Expr)> = Vec::new();
                assert(substs_view(v@) =~= seq![]);
                Some((ValueInfo::Scalar(y), v))
            },
            ValueInfo::Array(a) => match &**a {
                ArrayInfo::Known { element_type, value } => {
                    assert(vinfo(*self) == VInfo::Array(Box::new(ainfo(**a))));
                    assert(ainfo(**a) == AInfo::Known(vinfo(*element_type), value.shape@, values_view(value.data@)));
                    let (fe, p) = match element_type.func_supertype(nvars) {
                        Some(x) => x,
                        None => return None,
                    };
                    let shape = demote_known_shape(value.shape.as_slice());
                    let inner = ArrayInfo::Ranked { element_type: fe, shape };
                    assert(ainfo(inner) == AInfo::Ranked(vinfo(fe), demoted(value.shape@)));
                    let res = ValueInfo::Array(Box::new(inner));
                    assert(vinfo(res) == VInfo::Array(Box::new(ainfo(inner))));
                    Some((res, p))
                },
                ArrayInfo::Ranked { element_type, shape } => {
                    let (fe, mut p) = match element_type.func_supertype(nvars) {
                        Some(x) => x,
                        None => return None,
                    };
                    let (sh2, q) = freshen_shape(shape, nvars);
                    append_substs(&mut p, q);
                    let inner = ArrayInfo::Ranked { element_type: fe, shape: sh2 };
                    assert(ainfo(inner) == AInfo::Ranked(vinfo(fe), shape_view(sh2@)));
                    let res = ValueInfo::Array(Box::new(inner));
                    assert(vinfo(res) == VInfo::Array(Box::new(ainfo(inner))));
                    Some((res, p))
                },
                ArrayInfo::Unranked { .. } => None,
            },
            ValueInfo::Mapping(m) => {
                let (fk, mut p) = match m.key_type.func_supertype(nvars) {
                    Some(x) => x,
                    None => return None,
                };
                let (fv, q) = match m.value_type.func_supertype(nvars) {
                    Some(x) => x,
                    None => return None,
                };
                append_substs(&mut p, q);
                Some((ValueInfo::Mapping(Box::new(MapInfo { key_type: fk, value_type: fv })), p))
            },
            ValueInfo::Struct(st) => match fields_func_supertype(&st.fields, nvars) {
                Some((f, p)) => Some((ValueInfo::Struct(StructInfo { fields: f }), p)),
                None => None,
            },
            ValueInfo::Enum(en) => match variants_func_supertype(&en.variants, nvars) {
                Some((f, p)) => Some((ValueInfo::Enum(EnumInfo { variants: f }), p)),
                None => None,
            },
        }
    }
}


/// The supertype of two scalar types does not depend on their order, but
/// for two known float zeros of different signs, where the left one is
/// kept.
pub proof fn lemma_scalar_supertype_commutes(l: ScalarInfo, r: ScalarInfo)
    requires
        !(l matches ScalarInfo::Float(Some(a)) && r matches ScalarInfo::Float(Some(b)) && a != b && float_eq(a, b)),
    ensures
        ssuper(l, r) == ssuper(r, l),
{
}

/// A scalar type is its own supertype, but for a known NaN, which equals
/// nothing.
pub proof fn lemma_scalar_supertype_reflexive(s: ScalarInfo)
    requires
        !(s matches ScalarInfo::Float(Some(x)) && !float_eq(x, x)),
    ensures
        ssuper(s, s) == Some(s),
{
}

/// Whether a value type is made of scalars and arrays only.
pub open spec fn plain(v: VInfo) -> bool
    decreases v,
{
    match v {
        VInfo::Scalar(_) => true,
        VInfo::Array(a) => match *a {
            AInfo::Known(e, _, _) => plain(e),
            AInfo::Ranked(e, _) => plain(e),
            AInfo::Unranked(e, _, _) => plain(e),
        },
        _ => false,
    }
}

proof fn lemma_freshen_matches(sh: Seq<Poly>, n: nat)
    requires
        freshen(sh, n) is Some,
    ensures
        freshen(sh, n) matches Some((sh2, q, _)) && sh2.len() == sh.len() && axes_match(sh, sh2) == Some(q),
    decreases sh.len(),
{
    if sh.len() > 0 {
        lemma_freshen_matches(sh.drop_last(), n);
        let (p, q, m) = freshen(sh.drop_last(), n)->Some_0;
        let (sh2, q2, _) = freshen(sh, n)->Some_0;
        assert(sh2.drop_last() =~= p);
        if const_of(sh.last()) is None {
            let v = var_poly(m);
            assert(v[0].0.len() == m + 1);
            assert(v[0].0 =~= var_mono(m));
            assert(single_var_of(v) == Some(m));
        }
    }
}

proof fn lemma_const_terms(c: int)
    ensures
        const_of(const_terms(c)) == Some(c),
{
}

/// A value made of scalars and arrays can be passed to the function
/// monomorphized for its own call supertype, and the substitutions that
/// matching finds are those that making the supertype gave: a call can
/// always reuse the monomorphization it makes.
pub proof fn lemma_matches_own_supertype(v: VInfo, n: nat)
    requires
        plain(v),
        fsuper(v, n) is Found,
    ensures
        fsuper(v, n) matches Outcome::Found((f, p), _) && mmatch(v, f) == Some(p),
    decreases v,
{
    match v {
        VInfo::Scalar(_) => {},
        VInfo::Array(a) => match *a {
            AInfo::Known(e, sh, _) => {
                lemma_matches_own_supertype(e, n);
                assert forall|i: int| 0 <= i < sh.len() implies const_of(#[trigger] demoted(sh)[i]) == Some(
                    (sh[i] as isize) as int,
                ) by {
                    lemma_const_terms(sh[i] as int);
                }
            },
            AInfo::Ranked(e, sh) => {
                lemma_matches_own_supertype(e, n);
                let (_, m) = match fsuper(e, n) {
                    Outcome::Found(x, m) => (x, m),
                    _ => arbitrary(),
                };
                lemma_freshen_matches(sh, m);
            },
            AInfo::Unranked(_, _, _) => {},
        },
        _ => {},
    }
}

} // verus!
