use crate::naming::{Name, Named, SpecName};
use crate::schema::{opt_text, PointAccess, PointMandatory};
use vstd::prelude::*;

verus! {

/// Optional pieces of generated code that a model needs.
#[derive(Debug, Clone, Copy, PartialEq, Eq, Hash, Structural)]
pub enum CodegenFeature {
    String,
}

/// How a C caller's pointer is turned into the Rust reference a point's adapter takes.
#[derive(Debug, Clone, Copy, PartialEq, Eq, Structural)]
pub enum CastFromC {
    String,
    Eui48,
    Ipv6addr,
}

/// The Rust and C shapes of a point's value, and the buffer functions that move it.
#[derive(Debug, Clone)]
pub struct ResolvedType {
    pub rust_type: String,
    pub c_type: String,
    pub size: u16,
    pub writer_function_name: String,
    pub reader_function_name: String,
    pub writer_allow_offset: bool,
    pub enum_repr: Option<String>,
    pub array_length: Option<i64>,
    pub cast_from_c: Option<CastFromC>,
}

pub struct SpecType {
    pub rust_type: Seq<char>,
    pub c_type: Seq<char>,
    pub size: u16,
    pub writer_function_name: Seq<char>,
    pub reader_function_name: Seq<char>,
    pub writer_allow_offset: bool,
    pub enum_repr: Option<Seq<char>>,
    pub array_length: Option<i64>,
    pub cast_from_c: Option<CastFromC>,
}

impl View for ResolvedType {
    type V = SpecType;

    open spec fn view(&self) -> SpecType {
        SpecType {
            rust_type: self.rust_type@,
            c_type: self.c_type@,
            size: self.size,
            writer_function_name: self.writer_function_name@,
            reader_function_name: self.reader_function_name@,
            writer_allow_offset: self.writer_allow_offset,
            enum_repr: opt_text(self.enum_repr),
            array_length: self.array_length,
            cast_from_c: self.cast_from_c,
        }
    }
}

/// Where a point's value comes from.
#[derive(Debug, Clone, PartialEq)]
pub enum PointValueType {
    Adapter,
    StaticValue(String),
    ModelLength,
}

pub enum SpecValueType {
    Adapter,
    StaticValue(Seq<char>),
    ModelLength,
}

impl View for PointValueType {
    type V = SpecValueType;

    open spec fn view(&self) -> SpecValueType {
        match self {
            PointValueType::Adapter => SpecValueType::Adapter,
            PointValueType::StaticValue(s) => SpecValueType::StaticValue(s@),
            PointValueType::ModelLength => SpecValueType::ModelLength,
        }
    }
}

/// The index that selects one instance of a repeating group.
#[derive(Debug, Clone)]
pub struct BlockIndex {
    pub group_name: String,
    pub index_name: String,
}

pub struct SpecBlockIndex {
    pub group_name: Seq<char>,
    pub index_name: Seq<char>,
}

impl View for BlockIndex {
    type V = SpecBlockIndex;

    open spec fn view(&self) -> SpecBlockIndex {
        SpecBlockIndex { group_name: self.group_name@, index_name: self.index_name@ }
    }
}

pub open spec fn blocks_view(v: Seq<BlockIndex>) -> Seq<SpecBlockIndex> {
    v.map_values(|b: BlockIndex| b@)
}

pub open spec fn texts_view(v: Seq<String>) -> Seq<Seq<char>> {
    v.map_values(|s: String| s@)
}

/// A point of a resolved model.
#[derive(Debug, Clone)]
pub struct ResolvedPoint {
    pub name: Name,
    pub internal_name: String,
    pub value_type: PointValueType,
    pub point_type: ResolvedType,
    pub access: PointAccess,
    pub mandatory: PointMandatory,
    pub block_indices: Vec<BlockIndex>,
    pub doc: Vec<String>,
    pub size: u16,
}

pub struct SpecPoint {
    pub name: SpecName,
    pub internal_name: Seq<char>,
    pub value_type: SpecValueType,
    pub point_type: SpecType,
    pub access: PointAccess,
    pub mandatory: PointMandatory,
    pub block_indices: Seq<SpecBlockIndex>,
    pub doc: Seq<Seq<char>>,
    pub size: u16,
}

impl View for ResolvedPoint {
    type V = SpecPoint;

    open spec fn view(&self) -> SpecPoint {
        SpecPoint {
            name: self.name@,
            internal_name: self.internal_name@,
            value_type: self.value_type@,
            point_type: self.point_type@,
            access: self.access,
            mandatory: self.mandatory,
            block_indices: blocks_view(self.block_indices@),
            doc: texts_view(self.doc@),
            size: self.size,
        }
    }
}

impl Named for ResolvedPoint {
    open spec fn spec_name(&self) -> SpecName {
        self.name@
    }

    fn name_ref(&self) -> (r: &Name)
        ensures
            r == &self.name,
    {
        &self.name
    }
}

pub open spec fn points_view(v: Seq<ResolvedPoint>) -> Seq<SpecPoint> {
    v.map_values(|p: ResolvedPoint| p@)
}

/// One variant of a resolved enum.
#[derive(Debug, Clone)]
pub struct EnumValue {
    pub name_pascal_case: String,
    pub discriminant: String,
    pub doc: Vec<String>,
}

pub struct SpecEnumValue {
    pub name_pascal_case: Seq<char>,
    pub discriminant: Seq<char>,
    pub doc: Seq<Seq<char>>,
}

impl View for EnumValue {
    type V = SpecEnumValue;

    open spec fn view(&self) -> SpecEnumValue {
        SpecEnumValue {
            name_pascal_case: self.name_pascal_case@,
            discriminant: self.discriminant@,
            doc: texts_view(self.doc@),
        }
    }
}

/// An enumerated point's set of symbols, as a Rust enum.
#[derive(Debug, Clone)]
pub struct ResolvedEnum {
    pub name: Name,
    pub discriminant_type: String,
    pub values: Vec<EnumValue>,
}

pub struct SpecEnum {
    pub name: SpecName,
    pub discriminant_type: Seq<char>,
    pub values: Seq<SpecEnumValue>,
}

impl View for ResolvedEnum {
    type V = SpecEnum;

    open spec fn view(&self) -> SpecEnum {
        SpecEnum {
            name: self.name@,
            discriminant_type: self.discriminant_type@,
            values: self.values@.map_values(|v: EnumValue| v@),
        }
    }
}

impl Named for ResolvedEnum {
    open spec fn spec_name(&self) -> SpecName {
        self.name@
    }

    fn name_ref(&self) -> (r: &Name)
        ensures
            r == &self.name,
    {
        &self.name
    }
}

pub open spec fn enums_view(v: Seq<ResolvedEnum>) -> Seq<SpecEnum> {
    v.map_values(|e: ResolvedEnum| e@)
}

pub open spec fn opt_enum_view(o: Option<ResolvedEnum>) -> Option<SpecEnum> {
    match o {
        Some(e) => Some(e@),
        None => None,
    }
}

pub fn copy_text(s: &String) -> (r: String)
    ensures
        r@ == s@,
{
    s.clone()
}

pub fn copy_opt_text(o: &Option<String>) -> (r: Option<String>)
    ensures
        opt_text(r) == opt_text(*o),
{
    match o {
        Some(s) => Some(s.clone()),
        None => None,
    }
}

pub fn copy_texts(v: &Vec<String>) -> (r: Vec<String>)
    ensures
        texts_view(r@) == texts_view(v@),
{
    let mut r: Vec<String> = Vec::new();
    let mut i: usize = 0;
    while i < v.len()
        invariant
            i <= v@.len(),
            r@.len() == i,
            forall|j: int| 0 <= j < i ==> (#[trigger] r@[j])@ == v@[j]@,
        decreases v@.len() - i,
    {
        r.push(v[i].clone());
        i = i + 1;
    }
    assert(texts_view(r@) =~= texts_view(v@));
    r
}

impl BlockIndex {
    pub fn copy(&self) -> (r: BlockIndex)
        ensures
            r@ == self@,
    {
        BlockIndex { group_name: self.group_name.clone(), index_name: self.index_name.clone() }
    }
}

pub fn copy_blocks(v: &Vec<BlockIndex>) -> (r: Vec<BlockIndex>)
    ensures
        blocks_view(r@) == blocks_view(v@),
{
    let mut r: Vec<BlockIndex> = Vec::new();
    let mut i: usize = 0;
    while i < v.len()
        invariant
            i <= v@.len(),
            r@.len() == i,
            forall|j: int| 0 <= j < i ==> (#[trigger] r@[j])@ == v@[j]@,
        decreases v@.len() - i,
    {
        r.push(v[i].copy());
        i = i + 1;
    }
    assert(blocks_view(r@) =~= blocks_view(v@));
    r
}

impl ResolvedType {
    pub fn copy(&self) -> (r: ResolvedType)
        ensures
            r@ == self@,
    {
        ResolvedType {
            rust_type: self.rust_type.clone(),
            c_type: self.c_type.clone(),
            size: self.size,
            writer_function_name: self.writer_function_name.clone(),
            reader_function_name: self.reader_function_name.clone(),
            writer_allow_offset: self.writer_allow_offset,
            enum_repr: copy_opt_text(&self.enum_repr),
            array_length: self.array_length,
            cast_from_c: self.cast_from_c,
        }
    }
}

impl PointValueType {
    pub fn copy(&self) -> (r: PointValueType)
        ensures
            r@ == self@,
    {
        match self {
            PointValueType::Adapter => PointValueType::Adapter,
            PointValueType::StaticValue(s) => PointValueType::StaticValue(s.clone()),
            PointValueType::ModelLength => PointValueType::ModelLength,
        }
    }
}

impl ResolvedPoint {
    pub fn copy(&self) -> (r: ResolvedPoint)
        ensures
            r@ == self@,
    {
        ResolvedPoint {
            name: self.name.copy(),
            internal_name: self.internal_name.clone(),
            value_type: self.value_type.copy(),
            point_type: self.point_type.copy(),
            access: self.access,
            mandatory: self.mandatory,
            block_indices: copy_blocks(&self.block_indices),
            doc: copy_texts(&self.doc),
            size: self.size,
        }
    }
}

impl EnumValue {
    pub fn copy(&self) -> (r: EnumValue)
        ensures
            r@ == self@,
    {
        EnumValue {
            name_pascal_case: self.name_pascal_case.clone(),
            discriminant: self.discriminant.clone(),
            doc: copy_texts(&self.doc),
        }
    }
}

impl ResolvedEnum {
    pub fn copy(&self) -> (r: ResolvedEnum)
        ensures
            r@ == self@,
    {
        let mut values: Vec<EnumValue> = Vec::new();
        let mut i: usize = 0;
        while i < self.values.len()
            invariant
                i <= self.values@.len(),
                values@.len() == i,
                forall|j: int| 0 <= j < i ==> (#[trigger] values@[j])@ == self.values@[j]@,
            decreases self.values@.len() - i,
        {
            values.push(self.values[i].copy());
            i = i + 1;
        }
        let r = ResolvedEnum {
            name: self.name.copy(),
            discriminant_type: self.discriminant_type.clone(),
            values,
        };
        assert(r@.values =~= self@.values);
        r
    }
}

} // verus!
