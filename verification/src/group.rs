use crate::case::{pascal_case_of, snake_case_of, to_pascal_case, to_snake_case};
use crate::naming::{Name, Named, SpecName};
use crate::point::{point_features, resolve_enum, resolve_point, spec_point, spec_resolve_enum, string_set};
use crate::resolved::{
    blocks_view, copy_blocks, copy_opt_text, enums_view, opt_enum_view, points_view, BlockIndex, CodegenFeature,
    ResolvedEnum, ResolvedPoint, SpecBlockIndex, SpecEnum, SpecPoint,
};
use crate::schema::{
    children_fit, children_use_strings, fixed_sizes, fixed_use, found_use, group_fits,
    group_uses_strings, is_fixed, is_found_repeating, is_visited, lemma_children_fit,
    lemma_children_use_split, opt_text, own_sizes, own_uses_strings, point_fits, point_names,
    schema_sizes, sum_sizes, Group, GroupCount, Point, PointAccess, PointType,
};
use crate::text::{joined, join_spaced, spaced};
use vstd::prelude::*;
use vstd::string::*;

verus! {

/// A group of a resolved model: its own points together with those of its
/// fixed subgroups, the enums of its whole subtree, and its repeating subgroups.
#[derive(Debug)]
pub struct ResolvedGroup {
    pub name: Name,
    pub name_short: String,
    /// This group's own short name alone, ignoring any derived prefixes.
    pub local_name_short: String,
    pub static_size: u16,
    pub points: Vec<ResolvedPoint>,
    pub enums: Vec<ResolvedEnum>,
    /// Each repeating subgroup, with the point that holds its repeat count.
    pub repeating_children: Vec<(ResolvedPoint, Box<ResolvedGroup>)>,
    pub writable: bool,
}

pub struct SpecGroup {
    pub name: SpecName,
    pub name_short: Seq<char>,
    pub local_name_short: Seq<char>,
    pub static_size: int,
    pub points: Seq<SpecPoint>,
    pub enums: Seq<SpecEnum>,
    pub repeating_children: Seq<(SpecPoint, SpecGroup)>,
    pub writable: bool,
}

pub open spec fn group_view(g: ResolvedGroup) -> SpecGroup
    decreases g,
{
    SpecGroup {
        name: g.name@,
        name_short: g.name_short@,
        local_name_short: g.local_name_short@,
        static_size: g.static_size as int,
        points: points_view(g.points@),
        enums: enums_view(g.enums@),
        repeating_children: children_view(g.repeating_children@),
        writable: g.writable,
    }
}

pub open spec fn children_view(s: Seq<(ResolvedPoint, Box<ResolvedGroup>)>) -> Seq<(SpecPoint, SpecGroup)>
    decreases s,
{
    if s.len() == 0 {
        Seq::empty()
    } else {
        children_view(s.drop_last()).push((s.last().0@, group_view(*s.last().1)))
    }
}

impl Named for ResolvedGroup {
    open spec fn spec_name(&self) -> SpecName {
        self.name@
    }

    fn name_ref(&self) -> (r: &Name)
        ensures
            r == &self.name,
    {
        &self.name
    }
}

impl View for ResolvedGroup {
    type V = SpecGroup;

    open spec fn view(&self) -> SpecGroup {
        group_view(*self)
    }
}

impl Clone for ResolvedGroup {
    fn clone(&self) -> (r: Self)
        ensures
            r@ == self@,
    {
        self.copy()
    }
}

impl ResolvedGroup {
    /// A copy of this group, with copies of everything below it.
    pub fn copy(&self) -> (r: ResolvedGroup)
        ensures
            r@ == self@,
        decreases self,
    {
        let mut points: Vec<ResolvedPoint> = Vec::new();
        let mut i: usize = 0;
        while i < self.points.len()
            invariant
                i <= self.points@.len(),
                points@.len() == i,
                forall|j: int| 0 <= j < i ==> (#[trigger] points@[j])@ == self.points@[j]@,
            decreases self.points@.len() - i,
        {
            points.push(self.points[i].copy());
            i = i + 1;
        }
        assert(points_view(points@) =~= points_view(self.points@));
        let mut enums: Vec<ResolvedEnum> = Vec::new();
        let mut i: usize = 0;
        while i < self.enums.len()
            invariant
                i <= self.enums@.len(),
                enums@.len() == i,
                forall|j: int| 0 <= j < i ==> (#[trigger] enums@[j])@ == self.enums@[j]@,
            decreases self.enums@.len() - i,
        {
            enums.push(self.enums[i].copy());
            i = i + 1;
        }
        assert(enums_view(enums@) =~= enums_view(self.enums@));
        proof {
            lemma_children_view_index(self.repeating_children@);
        }
        let mut children: Vec<(ResolvedPoint, Box<ResolvedGroup>)> = Vec::new();
        let mut i: usize = 0;
        while i < self.repeating_children.len()
            invariant
                i <= self.repeating_children@.len(),
                children@.len() == i,
                forall|j: int|
                    0 <= j < i ==> (#[trigger] children@[j]).0@ == self.repeating_children@[j].0@
                        && group_view(*children@[j].1) == group_view(
                        *self.repeating_children@[j].1,
                    ),
            decreases self.repeating_children@.len() - i,
        {
            let (count, child) = &self.repeating_children[i];
            let child: &ResolvedGroup = child;
            children.push((count.copy(), Box::new(child.copy())));
            i = i + 1;
        }
        proof {
            lemma_children_view_index(children@);
            assert(children_view(children@) =~= children_view(self.repeating_children@));
        }
        ResolvedGroup {
            name: self.name.copy(),
            name_short: self.name_short.clone(),
            local_name_short: self.local_name_short.clone(),
            static_size: self.static_size,
            points,
            enums,
            repeating_children: children,
            writable: self.writable,
        }
    }
}

/* The resolved form of a schema group */

/// The naming context a group is resolved in: the identifier text its names
/// start from, the short text its short name starts from, the name prefix of
/// its points, and the repeating groups it sits inside.
pub struct SpecCtx {
    pub ident: Seq<char>,
    pub short: Seq<char>,
    pub prefix: Option<Seq<char>>,
    pub blocks: Seq<SpecBlockIndex>,
}

pub open spec fn group_label_text(g: Group) -> Seq<char> {
    match g.label {
        Some(l) => l@,
        None => g.name@,
    }
}

/// The text a group's name is cased from: the identifier text, a space, and
/// the group's label (or its name when it has none).
pub open spec fn identity_text(g: Group, ident: Seq<char>) -> Seq<char> {
    spaced(ident, group_label_text(g))
}

/// The (snake_case name, PascalCase name, local short name) that `g` resolves
/// to within the identifier text `ident`.
pub open spec fn spec_identity(g: Group, ident: Seq<char>) -> (Seq<char>, Seq<char>, Seq<char>) {
    (
        snake_case_of(identity_text(g, ident)),
        pascal_case_of(identity_text(g, ident)),
        snake_case_of(g.name@),
    )
}

/// The context of a fixed subgroup: its label joins the identifier text and
/// its name the short text; prefix and repeating groups pass through unchanged.
pub open spec fn fixed_ctx(child: Group, c: SpecCtx) -> SpecCtx {
    SpecCtx {
        ident: spaced(group_label_text(child), c.ident),
        short: spaced(child.name@, c.short),
        prefix: c.prefix,
        blocks: c.blocks,
    }
}

/// The block index a repeating subgroup adds.
pub open spec fn child_block(child: Group, ident: Seq<char>) -> SpecBlockIndex {
    SpecBlockIndex {
        group_name: spec_identity(child, ident).0,
        index_name: spec_identity(child, ident).2 + "_index"@,
    }
}

/// The context of a repeating subgroup: its name becomes the prefix of its
/// points, and it adds its own block index.
pub open spec fn repeating_ctx(child: Group, c: SpecCtx) -> SpecCtx {
    SpecCtx {
        ident: c.ident,
        short: c.short,
        prefix: Some(child.name@),
        blocks: c.blocks.push(child_block(child, c.ident)),
    }
}

pub open spec fn root_points_spec(
    g: Group,
    ident: Seq<char>,
    prefix: Option<Seq<char>>,
    blocks: Seq<SpecBlockIndex>,
) -> Seq<SpecPoint> {
    g.points@.map_values(|p: Point| spec_point(p, ident, prefix, blocks))
}

/// The first point of `t` whose schema name is `name`.
pub open spec fn find_point(t: Seq<SpecPoint>, name: Seq<char>) -> Option<SpecPoint>
    decreases t.len(),
{
    if t.len() == 0 {
        None
    } else if t[0].internal_name == name {
        Some(t[0])
    } else {
        find_point(t.drop_first(), name)
    }
}

pub open spec fn spec_names(t: Seq<SpecPoint>) -> Seq<Seq<char>> {
    t.map_values(|p: SpecPoint| p.internal_name)
}

pub open spec fn flatten_points(fs: Seq<SpecGroup>) -> Seq<SpecPoint>
    decreases fs.len(),
{
    if fs.len() == 0 {
        Seq::empty()
    } else {
        flatten_points(fs.drop_last()) + fs.last().points
    }
}

pub open spec fn flatten_enums(fs: Seq<SpecGroup>) -> Seq<SpecEnum>
    decreases fs.len(),
{
    if fs.len() == 0 {
        Seq::empty()
    } else {
        flatten_enums(fs.drop_last()) + fs.last().enums
    }
}

pub open spec fn flatten_children(fs: Seq<SpecGroup>) -> Seq<(SpecPoint, SpecGroup)>
    decreases fs.len(),
{
    if fs.len() == 0 {
        Seq::empty()
    } else {
        flatten_children(fs.drop_last()) + fs.last().repeating_children
    }
}

/// The enums of each repeating subgroup, in order.
pub open spec fn children_enums(cs: Seq<(SpecPoint, SpecGroup)>) -> Seq<SpecEnum>
    decreases cs.len(),
{
    if cs.len() == 0 {
        Seq::empty()
    } else {
        children_enums(cs.drop_last()) + cs.last().1.enums
    }
}

/// The enums of a group's own points, in point order.
pub open spec fn own_enums(ps: Seq<Point>) -> Seq<SpecEnum>
    decreases ps.len(),
{
    if ps.len() == 0 {
        Seq::empty()
    } else {
        match spec_resolve_enum(ps.last()) {
            Some(e) => own_enums(ps.drop_last()).push(e),
            None => own_enums(ps.drop_last()),
        }
    }
}

/// Lexicographic order of character sequences (for strings, the same order
/// as their UTF-8 bytes).
pub open spec fn text_lt(a: Seq<char>, b: Seq<char>) -> bool
    decreases a.len(),
{
    if a.len() == 0 {
        b.len() > 0
    } else if b.len() == 0 {
        false
    } else if a[0] != b[0] {
        (a[0] as u32) < (b[0] as u32)
    } else {
        text_lt(a.drop_first(), b.drop_first())
    }
}

pub open spec fn enum_key(e: SpecEnum) -> Seq<char> {
    e.name.snake_case
}

/// Adds `e` to `s`: nothing changes when an enum of the same snake_case name
/// is met first; otherwise `e` goes just before the first enum whose name
/// sorts after its own.
pub open spec fn insert_enum(s: Seq<SpecEnum>, e: SpecEnum) -> Seq<SpecEnum>
    decreases s.len(),
{
    if s.len() == 0 {
        seq![e]
    } else if enum_key(e) == enum_key(s[0]) {
        s
    } else if text_lt(enum_key(e), enum_key(s[0])) {
        seq![e] + s
    } else {
        seq![s[0]] + insert_enum(s.drop_first(), e)
    }
}

/// `es` stably sorted by snake_case name, keeping the first of each run of
/// equal names.
pub open spec fn sort_dedup_enums(es: Seq<SpecEnum>) -> Seq<SpecEnum>
    decreases es.len(),
{
    if es.len() == 0 {
        Seq::empty()
    } else {
        insert_enum(sort_dedup_enums(es.drop_last()), es.last())
    }
}

/// A group is writable when one of its repeating subgroups is, or one of its points is read-write.
pub open spec fn is_writable(repeating: Seq<(SpecPoint, SpecGroup)>, points: Seq<SpecPoint>) -> bool {
    (exists|i: int| 0 <= i < repeating.len() && (#[trigger] repeating[i]).1.writable) || (exists|i: int|
        0 <= i < points.len() && (#[trigger] points[i]).access == PointAccess::Rw)
}

pub open spec fn sum_point_sizes(ps: Seq<SpecPoint>) -> int {
    sum_sizes(ps.map_values(|p: SpecPoint| p.size))
}

/// The resolved form of `g` in context `c`, where `top` holds the points of
/// the model's top-level group (`None` when `g` is that group).
pub open spec fn spec_group(g: Group, top: Option<Seq<SpecPoint>>, c: SpecCtx) -> SpecGroup
    decreases g, 1nat, 0nat,
{
    let root = root_points_spec(g, c.ident, c.prefix, c.blocks);
    let t = match top {
        Some(t) => t,
        None => root,
    };
    let fixed = spec_fixed(g, g.groups@.len() as nat, t, c);
    let repeating = spec_direct(g, g.groups@.len() as nat, t, c) + flatten_children(fixed);
    let points = root + flatten_points(fixed);
    let identity = spec_identity(g, c.ident);
    SpecGroup {
        name: SpecName { snake_case: identity.0, pascal_case: identity.1 },
        name_short: snake_case_of(spaced(c.short, g.name@)),
        local_name_short: identity.2,
        static_size: sum_point_sizes(points),
        points: points,
        enums: sort_dedup_enums(
            own_enums(g.points@) + flatten_enums(fixed) + children_enums(repeating),
        ),
        repeating_children: repeating,
        writable: is_writable(repeating, points),
    }
}

/// The resolved fixed subgroups among the first `n` subgroups of `g`.
pub open spec fn spec_fixed(g: Group, n: nat, t: Seq<SpecPoint>, c: SpecCtx) -> Seq<SpecGroup>
    decreases g, 0nat, n,
{
    if n == 0 || n > g.groups@.len() {
        Seq::empty()
    } else {
        let child = g.groups@[n - 1];
        if is_fixed(child) {
            spec_fixed(g, (n - 1) as nat, t, c).push(spec_group(child, Some(t), fixed_ctx(child, c)))
        } else {
            spec_fixed(g, (n - 1) as nat, t, c)
        }
    }
}

/// The resolved repeating subgroups among the first `n` subgroups of `g`
/// whose count point is found in `t`, each with that count point.
pub open spec fn spec_direct(g: Group, n: nat, t: Seq<SpecPoint>, c: SpecCtx) -> Seq<(SpecPoint, SpecGroup)>
    decreases g, 0nat, n,
{
    if n == 0 || n > g.groups@.len() {
        Seq::empty()
    } else {
        let child = g.groups@[n - 1];
        let prev = spec_direct(g, (n - 1) as nat, t, c);
        match child.count {
            GroupCount::String(count_name) => match find_point(t, count_name@) {
                Some(p) => prev.push((p, spec_group(child, Some(t), repeating_ctx(child, c)))),
                None => prev,
            },
            GroupCount::Integer(_) => prev,
        }
    }
}

/* Building blocks */

proof fn lemma_text_lt_skip(a: Seq<char>, b: Seq<char>, i: int)
    requires
        0 <= i < a.len(),
        i < b.len(),
        a[i] == b[i],
    ensures
        text_lt(a.skip(i), b.skip(i)) == text_lt(a.skip(i + 1), b.skip(i + 1)),
{
    assert(a.skip(i).drop_first() =~= a.skip(i + 1));
    assert(b.skip(i).drop_first() =~= b.skip(i + 1));
}

/// Whether `a` sorts before `b`.
pub fn text_less(a: &str, b: &str) -> (r: bool)
    ensures
        r == text_lt(a@, b@),
{
    let n = a.unicode_len();
    let m = b.unicode_len();
    let mut i: usize = 0;
    assert(a@.skip(0) =~= a@);
    assert(b@.skip(0) =~= b@);
    while i < n && i < m
        invariant
            n == a@.len(),
            m == b@.len(),
            i <= n,
            i <= m,
            text_lt(a@, b@) == text_lt(a@.skip(i as int), b@.skip(i as int)),
        decreases n - i,
    {
        let x = a.get_char(i);
        let y = b.get_char(i);
        if x != y {
            return (x as u32) < (y as u32);
        }
        proof {
            lemma_text_lt_skip(a@, b@, i as int);
        }
        i = i + 1;
    }
    i == n && i < m
}

/// Adds `e` to `sorted` unless an enum of the same snake_case name is met
/// first, placing it before the first enum whose name sorts after its own.
pub fn insert_enum_sorted(sorted: &mut Vec<ResolvedEnum>, e: ResolvedEnum)
    ensures
        enums_view(final(sorted)@) == insert_enum(enums_view(old(sorted)@), e@),
{
    let ghost s0 = enums_view(old(sorted)@);
    let mut i: usize = 0;
    assert(s0.subrange(0, 0) + insert_enum(s0.subrange(0, s0.len() as int), e@) =~= insert_enum(
        s0,
        e@,
    )) by {
        assert(s0.subrange(0, s0.len() as int) =~= s0);
    }
    while i < sorted.len()
        invariant
            sorted@ == old(sorted)@,
            s0 == enums_view(sorted@),
            i <= sorted@.len(),
            insert_enum(s0, e@) == s0.subrange(0, i as int) + insert_enum(
                s0.subrange(i as int, s0.len() as int),
                e@,
            ),
        decreases sorted@.len() - i,
    {
        let ghost rest = s0.subrange(i as int, s0.len() as int);
        assert(rest[0] == sorted@[i as int]@);
        if e.name.snake_case == sorted[i].name.snake_case {
            assert(s0.subrange(0, i as int) + rest =~= s0);
            return;
        }
        if text_less(e.name.snake_case.as_str(), sorted[i].name.snake_case.as_str()) {
            sorted.insert(i, e);
            assert(enums_view(sorted@) =~= s0.subrange(0, i as int) + (seq![e@] + rest));
            return;
        }
        assert(rest.drop_first() =~= s0.subrange(i + 1, s0.len() as int));
        assert(s0.subrange(0, i as int) + seq![rest[0]] =~= s0.subrange(0, i + 1));
        assert(s0.subrange(0, i + 1) + insert_enum(rest.drop_first(), e@) =~= s0.subrange(
            0,
            i as int,
        ) + (seq![rest[0]] + insert_enum(rest.drop_first(), e@)));
        i = i + 1;
    }
    assert(s0.subrange(i as int, s0.len() as int) =~= Seq::<SpecEnum>::empty());
    let ghost before = enums_view(sorted@);
    sorted.push(e);
    assert(enums_view(sorted@) =~= before + seq![e@]);
    assert(s0.subrange(0, i as int) =~= s0);
}

/// `enums` stably sorted by snake_case name, keeping the first enum of each name.
pub fn sort_dedup(enums: Vec<ResolvedEnum>) -> (r: Vec<ResolvedEnum>)
    ensures
        enums_view(r@) == sort_dedup_enums(enums_view(enums@)),
{
    let ghost all = enums_view(enums@);
    let mut enums = enums;
    let mut r: Vec<ResolvedEnum> = Vec::new();
    let mut i: usize = 0;
    let n = enums.len();
    assert(all.subrange(0, 0) =~= Seq::<SpecEnum>::empty());
    while enums.len() > 0
        invariant
            i + enums@.len() == n,
            n <= usize::MAX,
            all.len() == n,
            enums_view(enums@) == all.subrange(i as int, n as int),
            enums_view(r@) == sort_dedup_enums(all.subrange(0, i as int)),
        decreases enums@.len(),
    {
        let ghost ev = enums@;
        let e = enums.remove(0);
        assert(ev[0] == e);
        assert(enums_view(ev)[0] == all[i as int]);
        assert(all[i as int] == e@);
        assert(all.subrange(0, i + 1).drop_last() =~= all.subrange(0, i as int));
        insert_enum_sorted(&mut r, e);
        assert(enums@ =~= ev.subrange(1, ev.len() as int));
        assert(enums_view(enums@) =~= enums_view(ev).subrange(1, ev.len() as int));
        i = i + 1;
        assert(enums_view(enums@) =~= all.subrange(i as int, n as int));
    }
    assert(all.subrange(0, n as int) =~= all);
    r
}

/// The (snake_case name, PascalCase name, local short name) that `group`
/// resolves to within the identifier text `identifier_text`.
fn group_identity(group: &Group, identifier_text: &str) -> (r: (String, String, String))
    ensures
        r.0@ == spec_identity(*group, identifier_text@).0,
        r.1@ == spec_identity(*group, identifier_text@).1,
        r.2@ == spec_identity(*group, identifier_text@).2,
{
    let label = match &group.label {
        Some(l) => l,
        None => &group.name,
    };
    let name = join_spaced(identifier_text, label.as_str());
    (
        to_snake_case(name.as_str()),
        to_pascal_case(name.as_str()),
        to_snake_case(group.name.as_str()),
    )
}

proof fn lemma_find_point_skip(t: Seq<SpecPoint>, name: Seq<char>, i: int)
    requires
        0 <= i < t.len(),
        t[i].internal_name != name,
    ensures
        find_point(t.skip(i), name) == find_point(t.skip(i + 1), name),
{
    assert(t.skip(i).drop_first() =~= t.skip(i + 1));
}

/// The first of `top` whose schema name is `name`.
pub(crate) fn find_count_point<'a>(top: &'a [ResolvedPoint], name: &String) -> (r: Option<&'a ResolvedPoint>)
    ensures
        match r {
            Some(p) => find_point(points_view(top@), name@) == Some(p@),
            None => find_point(points_view(top@), name@) is None,
        },
{
    let ghost t = points_view(top@);
    assert(t.skip(0) =~= t);
    let mut i: usize = 0;
    while i < top.len()
        invariant
            t == points_view(top@),
            i <= top@.len(),
            find_point(t, name@) == find_point(t.skip(i as int), name@),
        decreases top@.len() - i,
    {
        if top[i].internal_name == *name {
            return Some(&top[i]);
        }
        proof {
            lemma_find_point_skip(t, name@, i as int);
        }
        i = i + 1;
    }
    None
}

/* Lemmas on views and resolved forms */

pub open spec fn groups_view(v: Seq<ResolvedGroup>) -> Seq<SpecGroup> {
    v.map_values(|g: ResolvedGroup| g@)
}

pub proof fn lemma_children_view_concat(
    a: Seq<(ResolvedPoint, Box<ResolvedGroup>)>,
    b: Seq<(ResolvedPoint, Box<ResolvedGroup>)>,
)
    ensures
        children_view(a + b) == children_view(a) + children_view(b),
    decreases b.len(),
{
    if b.len() == 0 {
        assert(a + b =~= a);
        assert(children_view(a) + children_view(b) =~= children_view(a));
    } else {
        assert((a + b).drop_last() =~= a + b.drop_last());
        lemma_children_view_concat(a, b.drop_last());
        assert(children_view(a + b) =~= children_view(a) + children_view(b));
    }
}

pub proof fn lemma_children_view_index(s: Seq<(ResolvedPoint, Box<ResolvedGroup>)>)
    ensures
        children_view(s).len() == s.len(),
        forall|i: int|
            0 <= i < s.len() ==> #[trigger] children_view(s)[i] == (s[i].0@, group_view(*s[i].1)),
    decreases s.len(),
{
    if s.len() > 0 {
        lemma_children_view_index(s.drop_last());
    }
}

pub proof fn lemma_find_point_contains(t: Seq<SpecPoint>, name: Seq<char>)
    ensures
        find_point(t, name) is Some <==> spec_names(t).contains(name),
    decreases t.len(),
{
    if t.len() > 0 {
        lemma_find_point_contains(t.drop_first(), name);
        assert(spec_names(t.drop_first()) =~= spec_names(t).drop_first());
        if spec_names(t).contains(name) && t[0].internal_name != name {
            let k = choose|k: int| 0 <= k < spec_names(t).len() && spec_names(t)[k] == name;
            assert(spec_names(t.drop_first())[k - 1] == name);
        }
        if spec_names(t.drop_first()).contains(name) {
            let k = choose|k: int|
                0 <= k < spec_names(t.drop_first()).len() && spec_names(t.drop_first())[k] == name;
            assert(spec_names(t)[k + 1] == name);
        }
        if t[0].internal_name == name {
            assert(spec_names(t)[0] == name);
        }
    }
}

proof fn lemma_sum_sizes_prefix(s: Seq<u16>, i: int)
    requires
        0 <= i <= s.len(),
    ensures
        sum_sizes(s.subrange(0, i)) <= sum_sizes(s),
        0 <= sum_sizes(s.subrange(0, i)),
    decreases s.len() - i,
{
    if i < s.len() {
        lemma_sum_sizes_prefix(s, i + 1);
        assert(s.subrange(0, i + 1).drop_last() =~= s.subrange(0, i));
    } else {
        assert(s.subrange(0, i) =~= s);
    }
    lemma_sum_sizes_nonneg(s.subrange(0, i));
}

proof fn lemma_sum_sizes_nonneg(s: Seq<u16>)
    ensures
        0 <= sum_sizes(s),
    decreases s.len(),
{
    if s.len() > 0 {
        lemma_sum_sizes_nonneg(s.drop_last());
    }
}

/// The sizes of a resolved group's points are those the schema gives its own
/// points and its fixed subgroups' points.
pub proof fn lemma_group_sizes(g: Group, top: Option<Seq<SpecPoint>>, c: SpecCtx)
    ensures
        spec_group(g, top, c).points.map_values(|p: SpecPoint| p.size) == schema_sizes(g),
    decreases g, 1nat, 0nat,
{
    let root = root_points_spec(g, c.ident, c.prefix, c.blocks);
    let t = match top {
        Some(t) => t,
        None => root,
    };
    let fixed = spec_fixed(g, g.groups@.len() as nat, t, c);
    lemma_fixed_sizes(g, g.groups@.len() as nat, t, c);
    assert(root.map_values(|p: SpecPoint| p.size) =~= own_sizes(g.points@));
    assert((root + flatten_points(fixed)).map_values(|p: SpecPoint| p.size) =~= root.map_values(
        |p: SpecPoint| p.size,
    ) + flatten_points(fixed).map_values(|p: SpecPoint| p.size));
}

proof fn lemma_fixed_sizes(g: Group, n: nat, t: Seq<SpecPoint>, c: SpecCtx)
    ensures
        flatten_points(spec_fixed(g, n, t, c)).map_values(|p: SpecPoint| p.size) == fixed_sizes(g, n),
    decreases g, 0nat, n,
{
    if n == 0 || n > g.groups@.len() {
        assert(flatten_points(spec_fixed(g, n, t, c)).map_values(|p: SpecPoint| p.size) =~= Seq::<
            u16,
        >::empty());
    } else {
        let child = g.groups@[n - 1];
        lemma_fixed_sizes(g, (n - 1) as nat, t, c);
        if is_fixed(child) {
            let prev = spec_fixed(g, (n - 1) as nat, t, c);
            let cg = spec_group(child, Some(t), fixed_ctx(child, c));
            lemma_group_sizes(child, Some(t), fixed_ctx(child, c));
            assert(prev.push(cg).drop_last() =~= prev);
            assert((flatten_points(prev) + cg.points).map_values(|p: SpecPoint| p.size)
                =~= flatten_points(prev).map_values(|p: SpecPoint| p.size) + cg.points.map_values(
                |p: SpecPoint| p.size,
            ));
        }
    }
}

/* Resolution */

fn merge_fixed_children(
    fixed: Vec<ResolvedGroup>,
    repeating: &mut Vec<(ResolvedPoint, Box<ResolvedGroup>)>,
    points: &mut Vec<ResolvedPoint>,
    enums: &mut Vec<ResolvedEnum>,
)
    ensures
        children_view(final(repeating)@) == children_view(old(repeating)@) + flatten_children(
            groups_view(fixed@),
        ),
        points_view(final(points)@) == points_view(old(points)@) + flatten_points(
            groups_view(fixed@),
        ),
        enums_view(final(enums)@) == enums_view(old(enums)@) + flatten_enums(groups_view(fixed@)),
{
    let ghost all = groups_view(fixed@);
    let n = fixed.len();
    let mut fixed = fixed;
    let mut i: usize = 0;
    assert(all.subrange(0, 0) =~= Seq::<SpecGroup>::empty());
    assert(children_view(repeating@) =~= children_view(old(repeating)@) + flatten_children(
        all.subrange(0, 0),
    ));
    assert(points_view(points@) =~= points_view(old(points)@) + flatten_points(all.subrange(0, 0)));
    assert(enums_view(enums@) =~= enums_view(old(enums)@) + flatten_enums(all.subrange(0, 0)));
    while fixed.len() > 0
        invariant
            i + fixed@.len() == n,
            all.len() == n,
            groups_view(fixed@) == all.subrange(i as int, n as int),
            children_view(repeating@) == children_view(old(repeating)@) + flatten_children(
                all.subrange(0, i as int),
            ),
            points_view(points@) == points_view(old(points)@) + flatten_points(
                all.subrange(0, i as int),
            ),
            enums_view(enums@) == enums_view(old(enums)@) + flatten_enums(all.subrange(0, i as int)),
        decreases fixed@.len(),
    {
        let ghost fv = fixed@;
        let f = fixed.remove(0);
        assert(groups_view(fv)[0] == all[i as int]);
        assert(fixed@ =~= fv.subrange(1, fv.len() as int));
        assert(groups_view(fixed@) =~= groups_view(fv).subrange(1, fv.len() as int));
        let ghost prefix = all.subrange(0, i as int);
        assert(all.subrange(0, i + 1).drop_last() =~= prefix);
        let ResolvedGroup { points: mut fp, enums: mut fe, repeating_children: mut fr, .. } = f;
        let ghost rv = repeating@;
        let ghost frv = fr@;
        repeating.append(&mut fr);
        proof {
            lemma_children_view_concat(rv, frv);
        }
        let ghost pv = points@;
        let ghost fpv = fp@;
        points.append(&mut fp);
        assert(points_view(points@) =~= points_view(pv) + points_view(fpv));
        let ghost ev = enums@;
        let ghost fev = fe@;
        enums.append(&mut fe);
        assert(enums_view(enums@) =~= enums_view(ev) + enums_view(fev));
        i = i + 1;
        assert(children_view(repeating@) =~= children_view(old(repeating)@) + flatten_children(
            all.subrange(0, i as int),
        ));
        assert(points_view(points@) =~= points_view(old(points)@) + flatten_points(
            all.subrange(0, i as int),
        ));
        assert(enums_view(enums@) =~= enums_view(old(enums)@) + flatten_enums(
            all.subrange(0, i as int),
        ));
    }
    assert(all.subrange(0, n as int) =~= all);
}

fn repeating_enums(repeating: &Vec<(ResolvedPoint, Box<ResolvedGroup>)>) -> (r: Vec<ResolvedEnum>)
    ensures
        enums_view(r@) == children_enums(children_view(repeating@)),
{
    let ghost cv = children_view(repeating@);
    proof {
        lemma_children_view_index(repeating@);
    }
    let mut r: Vec<ResolvedEnum> = Vec::new();
    let mut i: usize = 0;
    assert(enums_view(r@) =~= children_enums(cv.subrange(0, 0)));
    while i < repeating.len()
        invariant
            i <= repeating@.len(),
            cv == children_view(repeating@),
            cv.len() == repeating@.len(),
            forall|k: int|
                0 <= k < repeating@.len() ==> #[trigger] cv[k] == (
                    repeating@[k].0@,
                    group_view(*repeating@[k].1),
                ),
            enums_view(r@) == children_enums(cv.subrange(0, i as int)),
        decreases repeating@.len() - i,
    {
        let child: &ResolvedGroup = &repeating[i].1;
        let ghost base = enums_view(r@);
        let mut j: usize = 0;
        assert(base + enums_view(child.enums@).subrange(0, 0) =~= base);
        while j < child.enums.len()
            invariant
                j <= child.enums@.len(),
                enums_view(r@) == base + enums_view(child.enums@).subrange(0, j as int),
            decreases child.enums@.len() - j,
        {
            let ghost rv = r@;
            let e = child.enums[j].copy();
            r.push(e);
            assert(enums_view(r@) =~= enums_view(rv).push(e@));
            assert(enums_view(r@) =~= base + enums_view(child.enums@).subrange(0, j + 1));
            j = j + 1;
        }
        assert(enums_view(child.enums@).subrange(0, j as int) =~= enums_view(child.enums@));
        assert(cv[i as int].1 == group_view(*child));
        assert(cv.subrange(0, i + 1).drop_last() =~= cv.subrange(0, i as int));
        i = i + 1;
    }
    assert(cv.subrange(0, i as int) =~= cv);
    r
}

fn total_size(points: &Vec<ResolvedPoint>) -> (r: u16)
    requires
        sum_point_sizes(points_view(points@)) <= u16::MAX,
    ensures
        r == sum_point_sizes(points_view(points@)),
{
    let ghost sizes = points_view(points@).map_values(|p: SpecPoint| p.size);
    proof {
        lemma_sum_sizes_prefix(sizes, 0);
    }
    let mut total: u16 = 0;
    let mut i: usize = 0;
    assert(sizes.subrange(0, 0) =~= Seq::<u16>::empty());
    while i < points.len()
        invariant
            i <= points@.len(),
            sizes == points_view(points@).map_values(|p: SpecPoint| p.size),
            sum_sizes(sizes) <= u16::MAX,
            total == sum_sizes(sizes.subrange(0, i as int)),
        decreases points@.len() - i,
    {
        proof {
            lemma_sum_sizes_prefix(sizes, i + 1);
            assert(sizes.subrange(0, i + 1).drop_last() =~= sizes.subrange(0, i as int));
        }
        assert(sizes[i as int] == points@[i as int].size);
        total = total + points[i].size;
        i = i + 1;
    }
    assert(sizes.subrange(0, i as int) =~= sizes);
    total
}

fn any_writable_child(repeating: &Vec<(ResolvedPoint, Box<ResolvedGroup>)>) -> (r: bool)
    ensures
        r == exists|i: int|
            0 <= i < children_view(repeating@).len() && (#[trigger] children_view(
                repeating@,
            )[i]).1.writable,
{
    proof {
        lemma_children_view_index(repeating@);
    }
    let mut i: usize = 0;
    while i < repeating.len()
        invariant
            i <= repeating@.len(),
            children_view(repeating@).len() == repeating@.len(),
            forall|k: int|
                0 <= k < repeating@.len() ==> #[trigger] children_view(repeating@)[k] == (
                    repeating@[k].0@,
                    group_view(*repeating@[k].1),
                ),
            forall|k: int| 0 <= k < i ==> !(#[trigger] children_view(repeating@)[k]).1.writable,
        decreases repeating@.len() - i,
    {
        if repeating[i].1.writable {
            assert(children_view(repeating@)[i as int].1.writable);
            return true;
        }
        i = i + 1;
    }
    false
}

fn any_writable_point(points: &Vec<ResolvedPoint>) -> (r: bool)
    ensures
        r == exists|i: int|
            0 <= i < points_view(points@).len() && (#[trigger] points_view(points@)[i]).access
                == PointAccess::Rw,
{
    let mut i: usize = 0;
    while i < points.len()
        invariant
            i <= points@.len(),
            forall|k: int| 0 <= k < i ==> (#[trigger] points_view(points@)[k]).access != PointAccess::Rw,
        decreases points@.len() - i,
    {
        if points[i].access == PointAccess::Rw {
            assert(points_view(points@)[i as int].access == PointAccess::Rw);
            return true;
        }
        i = i + 1;
    }
    false
}

pub open spec fn mk_ctx(
    ident: Seq<char>,
    short: Seq<char>,
    prefix: Option<Seq<char>>,
    blocks: Seq<SpecBlockIndex>,
) -> SpecCtx {
    SpecCtx { ident, short, prefix, blocks }
}

/// The schema names of the top-level points a group is resolved against.
pub open spec fn top_names(top: Option<&[ResolvedPoint]>, g: Group) -> Seq<Seq<char>> {
    match top {
        Some(t) => spec_names(points_view(t@)),
        None => point_names(g.points@),
    }
}

pub open spec fn top_view(top: Option<&[ResolvedPoint]>) -> Option<Seq<SpecPoint>> {
    match top {
        Some(t) => Some(points_view(t@)),
        None => None,
    }
}

fn resolve_root_points(
    group: &Group,
    features: &mut Vec<CodegenFeature>,
    identifier_text: &str,
    name_prefix: &Option<String>,
    block_indices: &Vec<BlockIndex>,
) -> (r: Vec<ResolvedPoint>)
    requires
        forall|i: int| 0 <= i < group.points@.len() ==> point_fits(#[trigger] group.points@[i]),
        old(features)@.no_duplicates(),
    ensures
        points_view(r@) == root_points_spec(
            *group,
            identifier_text@,
            opt_text(*name_prefix),
            blocks_view(block_indices@),
        ),
        final(features)@.no_duplicates(),
        final(features)@.to_set() == old(features)@.to_set().union(
            string_set(own_uses_strings(group.points@)),
        ),
{
    let ghost spec = root_points_spec(
        *group,
        identifier_text@,
        opt_text(*name_prefix),
        blocks_view(block_indices@),
    );
    let mut r: Vec<ResolvedPoint> = Vec::new();
    let mut i: usize = 0;
    assert(features@.to_set() =~= old(features)@.to_set().union(
        string_set(own_uses_strings(group.points@.subrange(0, 0))),
    ));
    while i < group.points.len()
        invariant
            i <= group.points@.len(),
            forall|j: int| 0 <= j < group.points@.len() ==> point_fits(#[trigger] group.points@[j]),
            spec == root_points_spec(
                *group,
                identifier_text@,
                opt_text(*name_prefix),
                blocks_view(block_indices@),
            ),
            r@.len() == i,
            forall|j: int| 0 <= j < i ==> (#[trigger] r@[j])@ == spec[j],
            features@.no_duplicates(),
            features@.to_set() == old(features)@.to_set().union(
                string_set(own_uses_strings(group.points@.subrange(0, i as int))),
            ),
        decreases group.points@.len() - i,
    {
        let p = resolve_point(
            &group.points[i],
            features,
            identifier_text,
            copy_opt_text(name_prefix),
            copy_blocks(block_indices),
        );
        match p {
            Some(p) => r.push(p),
            None => {},
        }
        proof {
            let prefix = group.points@.subrange(0, i as int);
            let next = group.points@.subrange(0, i + 1);
            if own_uses_strings(prefix) {
                let k = choose|k: int| 0 <= k < prefix.len() && (#[trigger] prefix[k]).type_
                    == PointType::String;
                assert(next[k] == prefix[k]);
            }
            if group.points@[i as int].type_ == PointType::String {
                assert(next[i as int] == group.points@[i as int]);
            }
            if own_uses_strings(next) {
                let k = choose|k: int| 0 <= k < next.len() && (#[trigger] next[k]).type_
                    == PointType::String;
                if k < i {
                    assert(prefix[k] == next[k]);
                }
            }
            assert(features@.to_set() =~= old(features)@.to_set().union(
                string_set(own_uses_strings(next)),
            ));
        }
        i = i + 1;
    }
    assert(group.points@.subrange(0, i as int) =~= group.points@);
    assert(points_view(r@) =~= spec);
    r
}

fn resolve_own_enums(group: &Group) -> (r: Vec<ResolvedEnum>)
    ensures
        enums_view(r@) == own_enums(group.points@),
{
    let mut r: Vec<ResolvedEnum> = Vec::new();
    let mut i: usize = 0;
    assert(enums_view(r@) =~= own_enums(group.points@.subrange(0, 0)));
    while i < group.points.len()
        invariant
            i <= group.points@.len(),
            enums_view(r@) == own_enums(group.points@.subrange(0, i as int)),
        decreases group.points@.len() - i,
    {
        let ghost before = r@;
        assert(group.points@.subrange(0, i + 1).drop_last() =~= group.points@.subrange(0, i as int));
        match resolve_enum(&group.points[i]) {
            Some(e) => {
                r.push(e);
                assert(enums_view(r@) =~= enums_view(before).push(e@));
            },
            None => {},
        }
        i = i + 1;
    }
    assert(group.points@.subrange(0, i as int) =~= group.points@);
    r
}

fn resolve_fixed_children(
    group: &Group,
    top: &[ResolvedPoint],
    features: &mut Vec<CodegenFeature>,
    identifier_text: &str,
    short_text: &str,
    name_prefix: &Option<String>,
    block_indices: &Vec<BlockIndex>,
) -> (r: Vec<ResolvedGroup>)
    requires
        children_fit(*group, group.groups@.len() as nat, spec_names(points_view(top@))),
        old(features)@.no_duplicates(),
    ensures
        groups_view(r@) == spec_fixed(
            *group,
            group.groups@.len() as nat,
            points_view(top@),
            mk_ctx(
                identifier_text@,
                short_text@,
                opt_text(*name_prefix),
                blocks_view(block_indices@),
            ),
        ),
        final(features)@.no_duplicates(),
        final(features)@.to_set() == old(features)@.to_set().union(
            string_set(
                fixed_use(*group, group.groups@.len() as nat, spec_names(points_view(top@))),
            ),
        ),
    decreases group, 0nat,
{
    let ghost c = mk_ctx(
        identifier_text@,
        short_text@,
        opt_text(*name_prefix),
        blocks_view(block_indices@),
    );
    let ghost t = points_view(top@);
    let ghost names = spec_names(t);
    let mut r: Vec<ResolvedGroup> = Vec::new();
    let mut i: usize = 0;
    assert(groups_view(r@) =~= spec_fixed(*group, 0, t, c));
    assert(features@.to_set() =~= old(features)@.to_set().union(
        string_set(fixed_use(*group, 0, names)),
    ));
    while i < group.groups.len()
        invariant
            i <= group.groups@.len(),
            c == mk_ctx(
                identifier_text@,
                short_text@,
                opt_text(*name_prefix),
                blocks_view(block_indices@),
            ),
            t == points_view(top@),
            names == spec_names(t),
            children_fit(*group, group.groups@.len() as nat, names),
            groups_view(r@) == spec_fixed(*group, i as nat, t, c),
            features@.no_duplicates(),
            features@.to_set() == old(features)@.to_set().union(
                string_set(fixed_use(*group, i as nat, names)),
            ),
        decreases group.groups@.len() - i,
    {
        let child = &group.groups[i];
        match &child.count {
            GroupCount::Integer(_) => {
                let label = match &child.label {
                    Some(l) => l,
                    None => &child.name,
                };
                let ident = join_spaced(label.as_str(), identifier_text);
                let short = join_spaced(child.name.as_str(), short_text);
                proof {
                    lemma_children_fit(*group, group.groups@.len() as nat, names, i as int);
                }
                let ghost rv = r@;
                let g = resolve_group(
                    child,
                    Some(top),
                    features,
                    ident.as_str(),
                    short.as_str(),
                    copy_opt_text(name_prefix),
                    copy_blocks(block_indices),
                );
                r.push(g);
                proof {
                    assert(groups_view(r@) =~= groups_view(rv).push(g@));
                    assert(features@.to_set() =~= old(features)@.to_set().union(
                        string_set(fixed_use(*group, (i + 1) as nat, names)),
                    ));
                }
            },
            GroupCount::String(_) => {},
        }
        i = i + 1;
    }
    r
}

fn resolve_direct_children(
    group: &Group,
    top: &[ResolvedPoint],
    features: &mut Vec<CodegenFeature>,
    identifier_text: &str,
    short_text: &str,
    name_prefix: &Option<String>,
    block_indices: &Vec<BlockIndex>,
) -> (r: Vec<(ResolvedPoint, Box<ResolvedGroup>)>)
    requires
        children_fit(*group, group.groups@.len() as nat, spec_names(points_view(top@))),
        old(features)@.no_duplicates(),
    ensures
        children_view(r@) == spec_direct(
            *group,
            group.groups@.len() as nat,
            points_view(top@),
            mk_ctx(
                identifier_text@,
                short_text@,
                opt_text(*name_prefix),
                blocks_view(block_indices@),
            ),
        ),
        final(features)@.no_duplicates(),
        final(features)@.to_set() == old(features)@.to_set().union(
            string_set(
                found_use(*group, group.groups@.len() as nat, spec_names(points_view(top@))),
            ),
        ),
    decreases group, 0nat,
{
    let ghost c = mk_ctx(
        identifier_text@,
        short_text@,
        opt_text(*name_prefix),
        blocks_view(block_indices@),
    );
    let ghost t = points_view(top@);
    let ghost names = spec_names(t);
    let mut r: Vec<(ResolvedPoint, Box<ResolvedGroup>)> = Vec::new();
    let mut i: usize = 0;
    assert(children_view(r@) =~= spec_direct(*group, 0, t, c));
    assert(features@.to_set() =~= old(features)@.to_set().union(
        string_set(found_use(*group, 0, names)),
    ));
    while i < group.groups.len()
        invariant
            i <= group.groups@.len(),
            c == mk_ctx(
                identifier_text@,
                short_text@,
                opt_text(*name_prefix),
                blocks_view(block_indices@),
            ),
            t == points_view(top@),
            names == spec_names(t),
            children_fit(*group, group.groups@.len() as nat, names),
            children_view(r@) == spec_direct(*group, i as nat, t, c),
            features@.no_duplicates(),
            features@.to_set() == old(features)@.to_set().union(
                string_set(found_use(*group, i as nat, names)),
            ),
        decreases group.groups@.len() - i,
    {
        let child = &group.groups[i];
        match &child.count {
            GroupCount::String(count_name) => {
                proof {
                    lemma_find_point_contains(t, count_name@);
                }
                match find_count_point(top, count_name) {
                    Some(p) => {
                        let (group_name, _, index_prefix) = group_identity(child, identifier_text);
                        let mut child_blocks = copy_blocks(block_indices);
                        let index_name = joined(index_prefix.as_str(), "_index");
                        let block = BlockIndex { group_name, index_name };
                        let ghost bv = block@;
                        child_blocks.push(block);
                        assert(blocks_view(child_blocks@) =~= blocks_view(block_indices@).push(bv));
                        proof {
                            lemma_children_fit(*group, group.groups@.len() as nat, names, i as int);
                        }
                        let ghost rv = r@;
                        let g = resolve_group(
                            child,
                            Some(top),
                            features,
                            identifier_text,
                            short_text,
                            Some(child.name.clone()),
                            child_blocks,
                        );
                        let cp = p.copy();
                        r.push((cp, Box::new(g)));
                        proof {
                            assert(r@.drop_last() =~= rv);
                            assert(features@.to_set() =~= old(features)@.to_set().union(
                                string_set(found_use(*group, (i + 1) as nat, names)),
                            ));
                        }
                    },
                    None => {
                        assert(features@.to_set() =~= old(features)@.to_set().union(
                            string_set(found_use(*group, (i + 1) as nat, names)),
                        ));
                    },
                }
            },
            GroupCount::Integer(_) => {},
        }
        i = i + 1;
    }
    r
}

/// Resolves `group` within the identifier text `identifier_text`, the short
/// text `short_text`, the name prefix `name_prefix` and the repeating groups
/// `block_indices`; `top_level_points_opt` holds the model's top-level points,
/// `None` when `group` is the top-level group itself. Notes in `features` the
/// code features its points need.
pub fn resolve_group(
    group: &Group,
    top_level_points_opt: Option<&[ResolvedPoint]>,
    features: &mut Vec<CodegenFeature>,
    identifier_text: &str,
    short_text: &str,
    name_prefix: Option<String>,
    block_indices: Vec<BlockIndex>,
) -> (r: ResolvedGroup)
    requires
        group_fits(*group, top_names(top_level_points_opt, *group)),
        old(features)@.no_duplicates(),
    ensures
        r@ == spec_group(
            *group,
            top_view(top_level_points_opt),
            mk_ctx(identifier_text@, short_text@, opt_text(name_prefix), blocks_view(block_indices@)),
        ),
        final(features)@.no_duplicates(),
        final(features)@.to_set() == old(features)@.to_set().union(
            string_set(group_uses_strings(*group, top_names(top_level_points_opt, *group))),
        ),
    decreases group, 1nat,
{
    let ghost c = mk_ctx(
        identifier_text@,
        short_text@,
        opt_text(name_prefix),
        blocks_view(block_indices@),
    );
    let ghost names = top_names(top_level_points_opt, *group);
    let (name_snake, name_pascal, local_name_short) = group_identity(group, identifier_text);
    let root_points = resolve_root_points(
        group,
        features,
        identifier_text,
        &name_prefix,
        &block_indices,
    );
    let top: &[ResolvedPoint] = match top_level_points_opt {
        Some(t) => t,
        None => root_points.as_slice(),
    };
    let ghost t = points_view(top@);
    proof {
        if top_level_points_opt is None {
            assert(spec_names(t) =~= point_names(group.points@));
        }
        assert(spec_names(t) == names);
    }
    let fixed = resolve_fixed_children(
        group,
        top,
        features,
        identifier_text,
        short_text,
        &name_prefix,
        &block_indices,
    );
    let mut repeating = resolve_direct_children(
        group,
        top,
        features,
        identifier_text,
        short_text,
        &name_prefix,
        &block_indices,
    );
    proof {
        lemma_children_use_split(*group, group.groups@.len() as nat, names);
        assert(features@.to_set() =~= old(features)@.to_set().union(
            string_set(group_uses_strings(*group, names)),
        ));
    }
    let ghost fixed_spec = groups_view(fixed@);
    let mut points = root_points;
    let mut fixed_enums: Vec<ResolvedEnum> = Vec::new();
    merge_fixed_children(fixed, &mut repeating, &mut points, &mut fixed_enums);
    let mut enums = resolve_own_enums(group);
    let ghost own = enums_view(enums@);
    let ghost fe = enums_view(fixed_enums@);
    enums.append(&mut fixed_enums);
    let mut child_enums = repeating_enums(&repeating);
    let ghost ce = enums_view(child_enums@);
    enums.append(&mut child_enums);
    assert(enums_view(enums@) =~= own + fe + ce);
    let enums = sort_dedup(enums);
    proof {
        lemma_group_sizes(*group, top_view(top_level_points_opt), c);
        assert(points_view(points@).map_values(|p: SpecPoint| p.size) == spec_group(
            *group,
            top_view(top_level_points_opt),
            c,
        ).points.map_values(|p: SpecPoint| p.size));
    }
    let static_size = total_size(&points);
    let name_short = to_snake_case(join_spaced(short_text, group.name.as_str()).as_str());
    let writable = any_writable_child(&repeating) || any_writable_point(&points);
    let r = ResolvedGroup {
        name: Name::new(name_snake, name_pascal),
        name_short,
        local_name_short,
        static_size,
        points,
        enums,
        repeating_children: repeating,
        writable,
    };
    proof {
        let sg = spec_group(*group, top_view(top_level_points_opt), c);
        let root = root_points_spec(*group, c.ident, c.prefix, c.blocks);
        let tt = match top_view(top_level_points_opt) {
            Some(t) => t,
            None => root,
        };
        assert(tt == t);
        let fx = spec_fixed(*group, group.groups@.len() as nat, tt, c);
        assert(fx == fixed_spec);
        assert(r@.points == sg.points);
        assert(r@.repeating_children == sg.repeating_children);
        assert(r@.enums == sg.enums);
    }
    r
}

} // verus!
