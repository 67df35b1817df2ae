use vstd::prelude::*;

verus! {

/// The SunSpec point types.
#[derive(Debug, Clone, Copy, PartialEq, Eq, Structural)]
pub enum PointType {
    Uint16,
    Raw16,
    Acc16,
    Bitfield16,
    Pad,
    Count,
    Enum16,
    Uint32,
    Acc32,
    Bitfield32,
    Enum32,
    Uint64,
    Acc64,
    Bitfield64,
    Int16,
    Sunssf,
    Int32,
    Int64,
    Float32,
    Float64,
    String,
    Ipaddr,
    Ipv6addr,
    Eui48,
}

/// Whether a point is read-only or read-write.
#[derive(Debug, Clone, Copy, PartialEq, Eq, Structural)]
pub enum PointAccess {
    R,
    Rw,
}

/// Whether a point is mandatory or optional.
#[derive(Debug, Clone, Copy, PartialEq, Eq, Structural)]
pub enum PointMandatory {
    M,
    O,
}

/// One symbol of an enumerated point.
#[derive(Debug, Clone)]
pub struct Symbol {
    pub name: String,
    pub value: i64,
    pub label: Option<String>,
    pub desc: Option<String>,
    pub detail: Option<String>,
}

/// A point of a SunSpec model schema.
#[derive(Debug, Clone)]
pub struct Point {
    pub name: String,
    pub label: Option<String>,
    pub desc: Option<String>,
    pub detail: Option<String>,
    pub type_: PointType,
    /// Size in registers.
    pub size: i64,
    pub access: PointAccess,
    pub mandatory: PointMandatory,
    /// A fixed value, as the schema writes it.
    pub value: Option<String>,
    pub symbols: Vec<Symbol>,
}

/// How many times a group occurs: a fixed number, or the value of a named count point.
#[derive(Debug, Clone)]
pub enum GroupCount {
    Integer(i64),
    String(String),
}

/// A group of a SunSpec model schema.
#[derive(Debug)]
pub struct Group {
    pub name: String,
    pub label: Option<String>,
    pub count: GroupCount,
    pub points: Vec<Point>,
    pub groups: Vec<Group>,
}

/// A SunSpec model schema.
#[derive(Debug)]
pub struct SunspecModel {
    pub group: Group,
}

/// The characters of an optional string.
pub open spec fn opt_text(o: Option<String>) -> Option<Seq<char>> {
    match o {
        Some(s) => Some(s@),
        None => None,
    }
}

/// A fixed subgroup: its count is a number.
pub open spec fn is_fixed(g: Group) -> bool {
    g.count is Integer
}

/// The names of a list of points.
pub open spec fn point_names(ps: Seq<Point>) -> Seq<Seq<char>> {
    ps.map_values(|p: Point| p.name@)
}

/// A repeating subgroup whose count point is among `top_names`.
pub open spec fn is_found_repeating(g: Group, top_names: Seq<Seq<char>>) -> bool {
    match g.count {
        GroupCount::String(n) => top_names.contains(n@),
        GroupCount::Integer(_) => false,
    }
}

/// A subgroup that resolution visits: fixed, or repeating with a known count point.
pub open spec fn is_visited(g: Group, top_names: Seq<Seq<char>>) -> bool {
    is_fixed(g) || is_found_repeating(g, top_names)
}

/// Register sizes, each truncated to `u16` as resolution stores it.
pub open spec fn own_sizes(ps: Seq<Point>) -> Seq<u16> {
    ps.map_values(|p: Point| p.size as u16)
}

/// The sizes of the points a resolved group lists: its own points', then
/// those of each fixed subgroup in order.
pub open spec fn schema_sizes(g: Group) -> Seq<u16>
    decreases g, 1nat, 0nat,
{
    own_sizes(g.points@) + fixed_sizes(g, g.groups@.len() as nat)
}

/// The sizes of the points of the fixed subgroups among the first `n` subgroups of `g`.
pub open spec fn fixed_sizes(g: Group, n: nat) -> Seq<u16>
    decreases g, 0nat, n,
{
    if n == 0 || n > g.groups@.len() {
        Seq::empty()
    } else if is_fixed(g.groups@[n - 1]) {
        fixed_sizes(g, (n - 1) as nat) + schema_sizes(g.groups@[n - 1])
    } else {
        fixed_sizes(g, (n - 1) as nat)
    }
}

pub open spec fn sum_sizes(s: Seq<u16>) -> int
    decreases s.len(),
{
    if s.len() == 0 {
        0
    } else {
        sum_sizes(s.drop_last()) + s.last()
    }
}

/// A string point's character count (twice its size) fits in an `i64`.
pub open spec fn point_fits(p: Point) -> bool {
    p.type_ == PointType::String ==> i64::MIN <= p.size * 2 <= i64::MAX
}

/// Every group resolution visits has a total size that fits in a `u16`, and
/// every string point it resolves has a character count that fits in an `i64`.
pub open spec fn group_fits(g: Group, top_names: Seq<Seq<char>>) -> bool
    decreases g, 1nat, 0nat,
{
    &&& sum_sizes(schema_sizes(g)) <= u16::MAX
    &&& forall|i: int| 0 <= i < g.points@.len() ==> point_fits(#[trigger] g.points@[i])
    &&& children_fit(g, g.groups@.len() as nat, top_names)
}

pub open spec fn children_fit(g: Group, n: nat, top_names: Seq<Seq<char>>) -> bool
    decreases g, 0nat, n,
{
    if n == 0 || n > g.groups@.len() {
        true
    } else {
        &&& children_fit(g, (n - 1) as nat, top_names)
        &&& is_visited(g.groups@[n - 1], top_names) ==> group_fits(g.groups@[n - 1], top_names)
    }
}

/// Resolution of `g` meets a string point.
pub open spec fn group_uses_strings(g: Group, top_names: Seq<Seq<char>>) -> bool
    decreases g, 1nat, 0nat,
{
    ||| exists|i: int| 0 <= i < g.points@.len() && (#[trigger] g.points@[i]).type_ == PointType::String
    ||| children_use_strings(g, g.groups@.len() as nat, top_names)
}

pub open spec fn children_use_strings(g: Group, n: nat, top_names: Seq<Seq<char>>) -> bool
    decreases g, 0nat, n,
{
    if n == 0 || n > g.groups@.len() {
        false
    } else {
        ||| children_use_strings(g, (n - 1) as nat, top_names)
        ||| is_visited(g.groups@[n - 1], top_names) && group_uses_strings(g.groups@[n - 1], top_names)
    }
}

/// Resolution of a fixed subgroup among the first `n` of `g` meets a string point.
pub open spec fn fixed_use(g: Group, n: nat, top_names: Seq<Seq<char>>) -> bool
    decreases n,
{
    if n == 0 || n > g.groups@.len() {
        false
    } else {
        fixed_use(g, (n - 1) as nat, top_names) || (is_fixed(g.groups@[n - 1]) && group_uses_strings(
            g.groups@[n - 1],
            top_names,
        ))
    }
}

/// Resolution of a repeating subgroup with a known count point among the
/// first `n` of `g` meets a string point.
pub open spec fn found_use(g: Group, n: nat, top_names: Seq<Seq<char>>) -> bool
    decreases n,
{
    if n == 0 || n > g.groups@.len() {
        false
    } else {
        found_use(g, (n - 1) as nat, top_names) || (is_found_repeating(g.groups@[n - 1], top_names)
            && group_uses_strings(g.groups@[n - 1], top_names))
    }
}

pub open spec fn own_uses_strings(ps: Seq<Point>) -> bool {
    exists|i: int| 0 <= i < ps.len() && (#[trigger] ps[i]).type_ == PointType::String
}

pub proof fn lemma_children_use_split(g: Group, n: nat, top_names: Seq<Seq<char>>)
    ensures
        children_use_strings(g, n, top_names) == (fixed_use(g, n, top_names) || found_use(
            g,
            n,
            top_names,
        )),
    decreases n,
{
    if n > 0 && n <= g.groups@.len() {
        lemma_children_use_split(g, (n - 1) as nat, top_names);
    }
}

pub proof fn lemma_children_fit(g: Group, n: nat, top_names: Seq<Seq<char>>, i: int)
    requires
        children_fit(g, n, top_names),
        0 <= i < n,
        n <= g.groups@.len(),
        is_visited(g.groups@[i], top_names),
    ensures
        group_fits(g.groups@[i], top_names),
    decreases n,
{
    if i < n - 1 {
        lemma_children_fit(g, (n - 1) as nat, top_names, i);
    }
}

} // verus!
