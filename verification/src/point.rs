use crate::case::{pascal_case_of, snake_case_of, to_pascal_case, to_snake_case};
use crate::naming::{Name, SpecName};
use crate::resolved::{
    blocks_view, texts_view, BlockIndex, CastFromC, CodegenFeature, EnumValue, PointValueType,
    ResolvedEnum, ResolvedPoint, ResolvedType, SpecBlockIndex, SpecEnum, SpecEnumValue, SpecPoint,
    SpecType, SpecValueType, opt_enum_view,
};
use crate::schema::{opt_text, point_fits, Point, PointAccess, PointType, Symbol};
use crate::text::{joined, decimal_string, decimal_text, push_decimal, spaced, join_spaced};
use vstd::prelude::*;
use vstd::string::*;

verus! {

/* Point types */

/// The primitive type that a point of type `t` is stored as.
pub open spec fn base_type_text(t: PointType) -> Seq<char> {
    match t {
        PointType::Uint16 | PointType::Raw16 | PointType::Acc16 | PointType::Bitfield16
        | PointType::Pad | PointType::Count | PointType::Enum16 => "u16"@,
        PointType::Uint32 | PointType::Acc32 | PointType::Bitfield32 | PointType::Enum32 => "u32"@,
        PointType::Uint64 | PointType::Acc64 | PointType::Bitfield64 => "u64"@,
        PointType::Int16 | PointType::Sunssf => "i16"@,
        PointType::Int32 => "i32"@,
        PointType::Int64 => "i64"@,
        PointType::Float32 => "f32"@,
        PointType::Float64 => "f64"@,
        PointType::String => "string"@,
        PointType::Ipaddr => "u32"@,
        PointType::Ipv6addr => "Ipv6Addr"@,
        PointType::Eui48 => "eui48"@,
    }
}

/// An enumerated point with at least one symbol: it gets a Rust enum of its own.
pub open spec fn is_enum_point(p: Point) -> bool {
    (p.type_ == PointType::Enum16 || p.type_ == PointType::Enum32) && p.symbols@.len() > 0
}

pub open spec fn spec_rust_type(p: Point, enum_name: Seq<char>) -> Seq<char> {
    match p.type_ {
        PointType::String => "&CStr"@,
        PointType::Eui48 => "&[u8; 6]"@,
        PointType::Ipv6addr => "&[u16; 8]"@,
        _ => if is_enum_point(p) {
            enum_name
        } else {
            base_type_text(p.type_)
        },
    }
}

pub open spec fn spec_c_type(p: Point, enum_name: Seq<char>) -> Seq<char> {
    match p.type_ {
        PointType::String => "c_char"@,
        PointType::Eui48 => "u8"@,
        PointType::Ipv6addr => "u16"@,
        _ => if is_enum_point(p) {
            enum_name
        } else {
            base_type_text(p.type_)
        },
    }
}

pub open spec fn spec_array_length(p: Point) -> Option<i64> {
    match p.type_ {
        PointType::String => Some((p.size * 2) as i64),
        PointType::Eui48 => Some(6),
        PointType::Ipv6addr => Some(8),
        _ => None,
    }
}

pub open spec fn spec_reader_name(p: Point, base_snake: Seq<char>) -> Seq<char> {
    if p.type_ == PointType::String {
        "read_"@ + base_snake + "::<"@ + decimal_text(p.size * 2) + ">"@
    } else {
        "read_"@ + base_snake
    }
}

pub open spec fn spec_cast_from_c(t: PointType) -> Option<CastFromC> {
    match t {
        PointType::String => Some(CastFromC::String),
        PointType::Eui48 => Some(CastFromC::Eui48),
        PointType::Ipv6addr => Some(CastFromC::Ipv6addr),
        _ => None,
    }
}

/// The resolved type of `p`, given the PascalCase form of its name
/// (`enum_name`) and the snake_case form of its base type (`base_snake`).
pub open spec fn spec_point_type_with(p: Point, enum_name: Seq<char>, base_snake: Seq<char>) -> SpecType {
    SpecType {
        rust_type: spec_rust_type(p, enum_name),
        c_type: spec_c_type(p, enum_name),
        size: p.size as u16,
        writer_function_name: "write_"@ + base_snake,
        reader_function_name: spec_reader_name(p, base_snake),
        writer_allow_offset: base_type_text(p.type_) != "u16"@ && base_type_text(p.type_) != "i16"@,
        enum_repr: if is_enum_point(p) {
            Some(base_type_text(p.type_))
        } else {
            None
        },
        array_length: spec_array_length(p),
        cast_from_c: spec_cast_from_c(p.type_),
    }
}

/// The resolved type of `p`.
pub open spec fn spec_point_type(p: Point) -> SpecType {
    spec_point_type_with(p, pascal_case_of(p.name@), snake_case_of(base_type_text(p.type_)))
}

/// The string feature when `b` holds, no feature otherwise.
pub open spec fn string_set(b: bool) -> Set<CodegenFeature> {
    if b {
        set![CodegenFeature::String]
    } else {
        Set::empty()
    }
}

/// The code features that resolving `p` calls for.
pub open spec fn point_features(p: Point) -> Set<CodegenFeature> {
    string_set(p.type_ == PointType::String)
}

/// The primitive type that a point of type `t` is stored as.
pub fn base_type(t: PointType) -> (r: String)
    ensures
        r@ == base_type_text(t),
{
    match t {
        PointType::Uint16 | PointType::Raw16 | PointType::Acc16 | PointType::Bitfield16
        | PointType::Pad | PointType::Count | PointType::Enum16 => String::from_str("u16"),
        PointType::Uint32 | PointType::Acc32 | PointType::Bitfield32 | PointType::Enum32 => {
            String::from_str("u32")
        },
        PointType::Uint64 | PointType::Acc64 | PointType::Bitfield64 => String::from_str("u64"),
        PointType::Int16 | PointType::Sunssf => String::from_str("i16"),
        PointType::Int32 => String::from_str("i32"),
        PointType::Int64 => String::from_str("i64"),
        PointType::Float32 => String::from_str("f32"),
        PointType::Float64 => String::from_str("f64"),
        PointType::String => String::from_str("string"),
        PointType::Ipaddr => String::from_str("u32"),
        PointType::Ipv6addr => String::from_str("Ipv6Addr"),
        PointType::Eui48 => String::from_str("eui48"),
    }
}

fn is_enum(point: &Point) -> (b: bool)
    ensures
        b == is_enum_point(*point),
{
    (point.type_ == PointType::Enum16 || point.type_ == PointType::Enum32) && point.symbols.len()
        > 0
}

/// Assembles the resolved type of `point` from the PascalCase form of its
/// name (`enum_name`) and the snake_case form of its base type (`base_snake`).
pub fn point_type_from_names(point: &Point, enum_name: &str, base_snake: &str) -> (r: ResolvedType)
    requires
        point_fits(*point),
    ensures
        r@ == spec_point_type_with(*point, enum_name@, base_snake@),
{
    let base = base_type(point.type_);
    let is_enum = is_enum(point);
    let rust_type = match point.type_ {
        PointType::String => String::from_str("&CStr"),
        PointType::Eui48 => String::from_str("&[u8; 6]"),
        PointType::Ipv6addr => String::from_str("&[u16; 8]"),
        _ => if is_enum {
            String::from_str(enum_name)
        } else {
            base.clone()
        },
    };
    let c_type = match point.type_ {
        PointType::String => String::from_str("c_char"),
        PointType::Eui48 => String::from_str("u8"),
        PointType::Ipv6addr => String::from_str("u16"),
        _ => if is_enum {
            String::from_str(enum_name)
        } else {
            base.clone()
        },
    };
    let array_length = match point.type_ {
        PointType::String => Some(point.size * 2),
        PointType::Eui48 => Some(6),
        PointType::Ipv6addr => Some(8),
        _ => None,
    };
    let writer_function_name = joined("write_", base_snake);
    let reader_function_name = match point.type_ {
        PointType::String => {
            let mut s = joined("read_", base_snake);
            s.append("::<");
            push_decimal(point.size * 2, &mut s);
            s.append(">");
            s
        },
        _ => joined("read_", base_snake),
    };
    let writer_allow_offset = !(base == String::from_str("u16")) && !(base == String::from_str(
        "i16",
    ));
    let cast_from_c = match point.type_ {
        PointType::String => Some(CastFromC::String),
        PointType::Eui48 => Some(CastFromC::Eui48),
        PointType::Ipv6addr => Some(CastFromC::Ipv6addr),
        _ => None,
    };
    let enum_repr = if is_enum {
        Some(base)
    } else {
        None
    };
    let r = ResolvedType {
        rust_type,
        c_type,
        size: point.size as u16,
        array_length,
        writer_function_name,
        reader_function_name,
        writer_allow_offset,
        enum_repr,
        cast_from_c,
    };
    assert(r@.reader_function_name =~= spec_reader_name(*point, base_snake@));
    r
}

/// Adds `f` to the feature list `features`, which holds each feature at most once.
pub fn insert_feature(features: &mut Vec<CodegenFeature>, f: CodegenFeature)
    requires
        old(features)@.no_duplicates(),
    ensures
        final(features)@.no_duplicates(),
        final(features)@.to_set() == old(features)@.to_set().insert(f),
{
    let mut i: usize = 0;
    while i < features.len()
        invariant
            i <= features@.len(),
            features@ == old(features)@,
            old(features)@.no_duplicates(),
            forall|j: int| 0 <= j < i ==> features@[j] != f,
        decreases features@.len() - i,
    {
        if features[i] == f {
            assert(features@.to_set() =~= features@.to_set().insert(f));
            return;
        }
        i = i + 1;
    }
    features.push(f);
    proof {
        old(features)@.lemma_push_to_set_commute(f);
        assert forall|a: int, b: int|
            0 <= a < final(features)@.len() && 0 <= b < final(features)@.len() && a != b implies
            final(features)@[a] != final(features)@[b] by {
            if a < old(features)@.len() && b < old(features)@.len() {
                assert(final(features)@[a] == old(features)@[a]);
            }
        }
    }
}

/// Resolves the type of `point`, noting in `features` any code feature it needs.
pub fn resolve_point_type(point: &Point, features: &mut Vec<CodegenFeature>) -> (r: ResolvedType)
    requires
        point_fits(*point),
        old(features)@.no_duplicates(),
    ensures
        r@ == spec_point_type(*point),
        final(features)@.no_duplicates(),
        final(features)@.to_set() == old(features)@.to_set().union(point_features(*point)),
{
    if point.type_ == PointType::String {
        insert_feature(features, CodegenFeature::String);
        assert(final(features)@.to_set() =~= old(features)@.to_set().union(point_features(*point)));
    } else {
        assert(features@.to_set() =~= old(features)@.to_set().union(point_features(*point)));
    }
    let enum_name = to_pascal_case(point.name.as_str());
    let base = base_type(point.type_);
    let base_snake = to_snake_case(base.as_str());
    point_type_from_names(point, enum_name.as_str(), base_snake.as_str())
}

/* C pointer casts */

pub open spec fn cast_text(c: CastFromC, value: Seq<char>) -> Seq<char> {
    match c {
        CastFromC::String => "unsafe { CStr::from_ptr("@ + value + ") }"@,
        CastFromC::Eui48 => "unsafe { &*("@ + value + " as *const [u8; 6]) }"@,
        CastFromC::Ipv6addr => "unsafe { &*("@ + value + " as *const [u16; 8]) }"@,
    }
}

fn cast_string_from_c(value: &str) -> (r: String)
    ensures
        r@ == cast_text(CastFromC::String, value@),
{
    let mut s = String::from_str("unsafe { CStr::from_ptr(");
    s.append(value);
    s.append(") }");
    assert(s@ =~= cast_text(CastFromC::String, value@));
    s
}

fn cast_eui48_from_c(value: &str) -> (r: String)
    ensures
        r@ == cast_text(CastFromC::Eui48, value@),
{
    let mut s = String::from_str("unsafe { &*(");
    s.append(value);
    s.append(" as *const [u8; 6]) }");
    assert(s@ =~= cast_text(CastFromC::Eui48, value@));
    s
}

fn cast_ipv6_from_c(value: &str) -> (r: String)
    ensures
        r@ == cast_text(CastFromC::Ipv6addr, value@),
{
    let mut s = String::from_str("unsafe { &*(");
    s.append(value);
    s.append(" as *const [u16; 8]) }");
    assert(s@ =~= cast_text(CastFromC::Ipv6addr, value@));
    s
}

impl CastFromC {
    /// The Rust expression that turns the C pointer expression `value` into a reference.
    pub fn apply(&self, value: &str) -> (r: String)
        ensures
            r@ == cast_text(*self, value@),
    {
        match self {
            CastFromC::String => cast_string_from_c(value),
            CastFromC::Eui48 => cast_eui48_from_c(value),
            CastFromC::Ipv6addr => cast_ipv6_from_c(value),
        }
    }
}

/* Points */

/// A label that starts with `Set `, as the labels of writable setpoints do.
pub open spec fn has_set_prefix(s: Seq<char>) -> bool {
    s.len() >= 4 && s[0] == 'S' && s[1] == 'e' && s[2] == 't' && s[3] == ' '
}

/// The part of a point's name that comes from the schema: its label, less a
/// leading `Set ` on a writable point, or else its schema name.
pub open spec fn main_name_text(p: Point) -> Seq<char> {
    match p.label {
        Some(l) => if p.access == PointAccess::Rw && has_set_prefix(l@) {
            l@.subrange(4, l@.len() as int)
        } else {
            l@
        },
        None => p.name@,
    }
}

/// The text a point's name is cased from: the identifier text, the name
/// prefix (empty when there is none) and the point's own name, space-separated.
pub open spec fn point_name_text(p: Point, ident: Seq<char>, prefix: Option<Seq<char>>) -> Seq<char> {
    spaced(
        spaced(
            ident,
            match prefix {
                Some(x) => x,
                None => Seq::empty(),
            },
        ),
        main_name_text(p),
    )
}

/// The first documentation line of a point: `label (name)`, or the name alone.
pub open spec fn label_doc(p: Point) -> Seq<char> {
    match p.label {
        Some(l) => l@ + " ("@ + p.name@ + ")"@,
        None => p.name@,
    }
}

pub open spec fn opt_line(o: Option<String>) -> Seq<Seq<char>> {
    match o {
        Some(s) => seq![s@],
        None => Seq::empty(),
    }
}

/// A point's documentation: its label line, then its description and detail where present.
pub open spec fn point_doc(p: Point) -> Seq<Seq<char>> {
    seq![label_doc(p)] + opt_line(p.desc) + opt_line(p.detail)
}

/// Where a point's value comes from: padding is always zero, a fixed value
/// is served as is, the point named `L` is the model length, and every other
/// point is read from the adapter.
pub open spec fn spec_value_type(p: Point) -> SpecValueType {
    if p.type_ == PointType::Pad {
        SpecValueType::StaticValue("0"@)
    } else {
        match p.value {
            Some(v) => SpecValueType::StaticValue(v@),
            None => if p.name@ == "L"@ {
                SpecValueType::ModelLength
            } else {
                SpecValueType::Adapter
            },
        }
    }
}

/// The resolved form of `p`, named within the identifier text `ident` and
/// prefix `prefix`, inside the repeating groups `blocks`.
pub open spec fn spec_point(
    p: Point,
    ident: Seq<char>,
    prefix: Option<Seq<char>>,
    blocks: Seq<SpecBlockIndex>,
) -> SpecPoint {
    let text = point_name_text(p, ident, prefix);
    SpecPoint {
        name: SpecName { snake_case: snake_case_of(text), pascal_case: pascal_case_of(text) },
        internal_name: p.name@,
        value_type: spec_value_type(p),
        point_type: spec_point_type(p),
        access: p.access,
        mandatory: p.mandatory,
        block_indices: blocks,
        doc: point_doc(p),
        size: p.size as u16,
    }
}

fn starts_with_set(s: &str) -> (b: bool)
    ensures
        b == has_set_prefix(s@),
{
    let n = s.unicode_len();
    n >= 4 && s.get_char(0) == 'S' && s.get_char(1) == 'e' && s.get_char(2) == 't' && s.get_char(3)
        == ' '
}

/// The part of `point`'s name that comes from the schema.
pub fn main_name(point: &Point) -> (r: String)
    ensures
        r@ == main_name_text(*point),
{
    match &point.label {
        Some(label) => {
            if point.access == PointAccess::Rw && starts_with_set(label.as_str()) {
                let rest = label.as_str().substring_char(4, label.as_str().unicode_len());
                String::from_str(rest)
            } else {
                label.clone()
            }
        },
        None => point.name.clone(),
    }
}

/// The text that `point`'s name is cased from.
pub fn point_name(point: &Point, identifier_text: &str, name_prefix: &Option<String>) -> (r: String)
    ensures
        r@ == point_name_text(*point, identifier_text@, opt_text(*name_prefix)),
{
    let prefix = match name_prefix {
        Some(p) => p.clone(),
        None => String::new(),
    };
    let head = join_spaced(identifier_text, prefix.as_str());
    let main = main_name(point);
    join_spaced(head.as_str(), main.as_str())
}

/// `point`'s documentation lines.
pub fn resolve_point_doc(point: &Point) -> (r: Vec<String>)
    ensures
        texts_view(r@) == point_doc(*point),
{
    let first = match &point.label {
        Some(label) => {
            let mut s = joined(label.as_str(), " (");
            s.append(point.name.as_str());
            s.append(")");
            s
        },
        None => point.name.clone(),
    };
    let mut doc: Vec<String> = Vec::new();
    doc.push(first);
    match &point.desc {
        Some(d) => doc.push(d.clone()),
        None => {},
    }
    match &point.detail {
        Some(d) => doc.push(d.clone()),
        None => {},
    }
    assert(texts_view(doc@) =~= point_doc(*point));
    doc
}

/// Where `point`'s value comes from.
pub fn resolve_value_type(point: &Point) -> (r: PointValueType)
    ensures
        r@ == spec_value_type(*point),
{
    if point.type_ == PointType::Pad {
        PointValueType::StaticValue(String::from_str("0"))
    } else {
        match &point.value {
            Some(value) => PointValueType::StaticValue(value.clone()),
            None => if point.name == String::from_str("L") {
                PointValueType::ModelLength
            } else {
                PointValueType::Adapter
            },
        }
    }
}

/// Resolves `point` within the identifier text `identifier_text`, name
/// prefix `name_prefix` and the repeating groups `block_indices`; always `Some`.
pub fn resolve_point(
    point: &Point,
    features: &mut Vec<CodegenFeature>,
    identifier_text: &str,
    name_prefix: Option<String>,
    block_indices: Vec<BlockIndex>,
) -> (r: Option<ResolvedPoint>)
    requires
        point_fits(*point),
        old(features)@.no_duplicates(),
    ensures
        r is Some,
        r->0@ == spec_point(
            *point,
            identifier_text@,
            opt_text(name_prefix),
            blocks_view(block_indices@),
        ),
        final(features)@.no_duplicates(),
        final(features)@.to_set() == old(features)@.to_set().union(point_features(*point)),
{
    let point_type = resolve_point_type(point, features);
    let name = point_name(point, identifier_text, &name_prefix);
    let doc = resolve_point_doc(point);
    let value_type = resolve_value_type(point);
    Some(
        ResolvedPoint {
            name: Name::new(to_snake_case(name.as_str()), to_pascal_case(name.as_str())),
            internal_name: point.name.clone(),
            point_type,
            value_type,
            block_indices,
            access: point.access,
            mandatory: point.mandatory,
            size: point.size as u16,
            doc,
        },
    )
}

/* Enums */

pub open spec fn symbol_doc(s: Symbol) -> Seq<Seq<char>> {
    opt_line(s.label) + opt_line(s.desc) + opt_line(s.detail)
}

/// The enum an enumerated point resolves to, given the snake_case and
/// PascalCase forms of its name (`name`) and the PascalCase forms of its
/// symbols' names (`value_names`).
pub open spec fn spec_enum_with(p: Point, name: SpecName, value_names: Seq<Seq<char>>) -> Option<SpecEnum> {
    if (p.type_ == PointType::Enum16 || p.type_ == PointType::Enum32) && p.symbols@.len() > 0 {
        Some(
            SpecEnum {
                name: name,
                discriminant_type: if p.type_ == PointType::Enum16 {
                    "u16"@
                } else {
                    "u32"@
                },
                values: Seq::new(
                    p.symbols@.len(),
                    |i: int|
                        SpecEnumValue {
                            name_pascal_case: value_names[i],
                            discriminant: decimal_text(p.symbols@[i].value as int),
                            doc: symbol_doc(p.symbols@[i]),
                        },
                ),
            },
        )
    } else {
        None
    }
}

/// The enum `p` resolves to: one for each enumerated point with symbols.
pub open spec fn spec_resolve_enum(p: Point) -> Option<SpecEnum> {
    spec_enum_with(
        p,
        SpecName { snake_case: snake_case_of(p.name@), pascal_case: pascal_case_of(p.name@) },
        p.symbols@.map_values(|s: Symbol| pascal_case_of(s.name@)),
    )
}

fn resolve_symbol_doc(symbol: &Symbol) -> (r: Vec<String>)
    ensures
        texts_view(r@) == symbol_doc(*symbol),
{
    let mut doc: Vec<String> = Vec::new();
    match &symbol.label {
        Some(d) => doc.push(d.clone()),
        None => {},
    }
    match &symbol.desc {
        Some(d) => doc.push(d.clone()),
        None => {},
    }
    match &symbol.detail {
        Some(d) => doc.push(d.clone()),
        None => {},
    }
    assert(texts_view(doc@) =~= symbol_doc(*symbol));
    doc
}

/// Assembles the enum `point` resolves to from the cased forms of its name
/// (`name`) and of its symbols' names (`value_names`, one per symbol).
pub fn enum_from_names(point: &Point, name: Name, value_names: Vec<String>) -> (r: Option<ResolvedEnum>)
    requires
        value_names@.len() == point.symbols@.len(),
    ensures
        opt_enum_view(r) == spec_enum_with(*point, name@, texts_view(value_names@)),
{
    if point.type_ == PointType::Enum16 || point.type_ == PointType::Enum32 {
        let mut values: Vec<EnumValue> = Vec::new();
        let mut i: usize = 0;
        while i < point.symbols.len()
            invariant
                i <= point.symbols@.len(),
                value_names@.len() == point.symbols@.len(),
                values@.len() == i,
                forall|j: int|
                    0 <= j < i ==> (#[trigger] values@[j])@ == (SpecEnumValue {
                        name_pascal_case: value_names@[j]@,
                        discriminant: decimal_text(point.symbols@[j].value as int),
                        doc: symbol_doc(point.symbols@[j]),
                    }),
            decreases point.symbols@.len() - i,
        {
            let symbol = &point.symbols[i];
            values.push(
                EnumValue {
                    name_pascal_case: value_names[i].clone(),
                    discriminant: decimal_string(symbol.value),
                    doc: resolve_symbol_doc(symbol),
                },
            );
            i = i + 1;
        }
        if values.len() == 0 {
            None
        } else {
            let discriminant_type = match point.type_ {
                PointType::Enum16 => String::from_str("u16"),
                PointType::Enum32 => String::from_str("u32"),
                _ => String::new(),
            };
            let r = ResolvedEnum { name, discriminant_type, values };
            assert(r@.values =~= spec_enum_with(*point, name@, texts_view(value_names@))->0.values);
            Some(r)
        }
    } else {
        None
    }
}

/// Resolves the enum of an enumerated point with symbols; `None` for every other point.
pub fn resolve_enum(point: &Point) -> (r: Option<ResolvedEnum>)
    ensures
        opt_enum_view(r) == spec_resolve_enum(*point),
{
    let mut value_names: Vec<String> = Vec::new();
    let mut i: usize = 0;
    while i < point.symbols.len()
        invariant
            i <= point.symbols@.len(),
            value_names@.len() == i,
            forall|j: int|
                0 <= j < i ==> (#[trigger] value_names@[j])@ == pascal_case_of(point.symbols@[j].name@),
        decreases point.symbols@.len() - i,
    {
        value_names.push(to_pascal_case(point.symbols[i].name.as_str()));
        i = i + 1;
    }
    let ghost names = texts_view(value_names@);
    assert(names =~= point.symbols@.map_values(|s: Symbol| pascal_case_of(s.name@)));
    let name = Name::new(to_snake_case(point.name.as_str()), to_pascal_case(point.name.as_str()));
    enum_from_names(point, name, value_names)
}

} // verus!
