use crate::case::{pascal_case_of, snake_case_of, to_pascal_case, to_snake_case};
use crate::group::{
    children_view, enum_key, find_count_point, find_point, group_view, lemma_children_view_index, mk_ctx, resolve_group, spec_group,
    spec_names, ResolvedGroup, SpecGroup,
};
use crate::naming::{
    deduplicated, distinct_names, entry_names, lemma_deduplicated_distinct, names_view, Name,
    NameTable, Named, SpecName, SpecNameEntry,
};
use crate::point::string_set;
use crate::resolved::{
    blocks_view, enums_view, points_view, BlockIndex, CodegenFeature, ResolvedEnum, ResolvedPoint,
    SpecBlockIndex, SpecEnum, SpecPoint,
};
use crate::schema::{group_fits, group_uses_strings, point_names, SunspecModel};
use crate::text::{model_number, model_number_of};
use vstd::prelude::*;
use vstd::string::*;

verus! {

/// A point that holds the repeat count of one or more repeating groups.
#[derive(Debug)]
pub struct CountPoint {
    pub point: ResolvedPoint,
}

pub open spec fn count_points_view(v: Seq<CountPoint>) -> Seq<SpecPoint> {
    v.map_values(|c: CountPoint| c.point@)
}

/* Name registration */

/// The fallback spelling of a point's name: its schema name, cased.
pub open spec fn point_fallback(p: SpecPoint) -> SpecName {
    SpecName {
        snake_case: snake_case_of(p.internal_name),
        pascal_case: pascal_case_of(p.internal_name),
    }
}

pub open spec fn point_entry(p: SpecPoint) -> SpecNameEntry {
    SpecNameEntry { name: p.name, fallback: Some(point_fallback(p)) }
}

/// The point names registered for `g`'s subtree: its points, then those of
/// each repeating subgroup in turn.
pub open spec fn point_registrations(g: SpecGroup) -> Seq<SpecNameEntry>
    decreases g, 1nat, 0nat,
{
    g.points.map_values(|p: SpecPoint| point_entry(p)) + children_point_registrations(
        g,
        g.repeating_children.len(),
    )
}

pub open spec fn children_point_registrations(g: SpecGroup, n: nat) -> Seq<SpecNameEntry>
    decreases g, 0nat, n,
{
    if n == 0 || n > g.repeating_children.len() {
        Seq::empty()
    } else {
        children_point_registrations(g, (n - 1) as nat) + point_registrations(
            g.repeating_children[n - 1].1,
        )
    }
}

/// The group names registered for `g`'s subtree: its own, then those of each
/// repeating subgroup in turn.
pub open spec fn group_registrations(g: SpecGroup) -> Seq<SpecNameEntry>
    decreases g, 1nat, 0nat,
{
    seq![SpecNameEntry { name: g.name, fallback: None }] + children_group_registrations(
        g,
        g.repeating_children.len(),
    )
}

pub open spec fn children_group_registrations(g: SpecGroup, n: nat) -> Seq<SpecNameEntry>
    decreases g, 0nat, n,
{
    if n == 0 || n > g.repeating_children.len() {
        Seq::empty()
    } else {
        children_group_registrations(g, (n - 1) as nat) + group_registrations(
            g.repeating_children[n - 1].1,
        )
    }
}

/// Registers every point and group in `group`'s subtree with the model-wide
/// `point_names` and `group_names` tables.
pub fn register_names(group: &ResolvedGroup, point_names: &mut NameTable, group_names: &mut NameTable)
    ensures
        final(point_names)@ == old(point_names)@ + point_registrations(group@),
        final(group_names)@ == old(group_names)@ + group_registrations(group@),
    decreases group,
{
    let ghost g = group@;
    group_names.register_unique(group.name.copy());
    let mut i: usize = 0;
    assert(g.points.subrange(0, 0).map_values(|p: SpecPoint| point_entry(p)) =~= Seq::<
        SpecNameEntry,
    >::empty());
    assert(point_names@ =~= old(point_names)@ + g.points.subrange(0, 0).map_values(
        |p: SpecPoint| point_entry(p),
    ));
    while i < group.points.len()
        invariant
            i <= group.points@.len(),
            g == group@,
            point_names@ == old(point_names)@ + g.points.subrange(0, i as int).map_values(
                |p: SpecPoint| point_entry(p),
            ),
        decreases group.points@.len() - i,
    {
        let point = &group.points[i];
        assert(g.points[i as int] == point@);
        let fallback = (
            to_snake_case(point.internal_name.as_str()),
            to_pascal_case(point.internal_name.as_str()),
        );
        point_names.register(point.name.copy(), fallback);
        assert(g.points.subrange(0, i + 1).map_values(|p: SpecPoint| point_entry(p))
            =~= g.points.subrange(0, i as int).map_values(|p: SpecPoint| point_entry(p)).push(
            point_entry(point@),
        ));
        i = i + 1;
    }
    assert(g.points.subrange(0, i as int) =~= g.points);
    proof {
        lemma_children_view_index(group.repeating_children@);
    }
    let ghost p0 = point_names@;
    let ghost g0 = group_names@;
    let mut j: usize = 0;
    assert(p0 + children_point_registrations(g, 0) =~= p0);
    assert(g0 + children_group_registrations(g, 0) =~= g0);
    while j < group.repeating_children.len()
        invariant
            j <= group.repeating_children@.len(),
            g == group@,
            g.repeating_children == children_view(group.repeating_children@),
            g.repeating_children.len() == group.repeating_children@.len(),
            forall|k: int|
                0 <= k < group.repeating_children@.len() ==> #[trigger] g.repeating_children[k] == (
                    group.repeating_children@[k].0@,
                    group_view(*group.repeating_children@[k].1),
                ),
            point_names@ == p0 + children_point_registrations(g, j as nat),
            group_names@ == g0 + children_group_registrations(g, j as nat),
        decreases group.repeating_children@.len() - j,
    {
        let child: &ResolvedGroup = &group.repeating_children[j].1;
        assert(g.repeating_children[j as int].1 == child@);
        register_names(child, point_names, group_names);
        assert(point_names@ =~= p0 + children_point_registrations(g, (j + 1) as nat));
        assert(group_names@ =~= g0 + children_group_registrations(g, (j + 1) as nat));
        j = j + 1;
    }
    assert(point_names@ =~= old(point_names)@ + point_registrations(g));
    assert(group_names@ =~= old(group_names)@ + group_registrations(g));
}

/* Renaming */

/// The names of the points of `g`'s subtree in registration order: its own
/// points, then those of each repeating subgroup in turn.
pub open spec fn tree_point_names(g: SpecGroup) -> Seq<SpecName>
    decreases g,
{
    g.points.map_values(|p: SpecPoint| p.name) + children_point_names(g.repeating_children)
}

pub open spec fn children_point_names(cs: Seq<(SpecPoint, SpecGroup)>) -> Seq<SpecName>
    decreases cs,
{
    if cs.len() == 0 {
        Seq::empty()
    } else {
        children_point_names(cs.drop_last()) + tree_point_names(cs.last().1)
    }
}

/// The names of the groups of `g`'s subtree in registration order: its own,
/// then those of each repeating subgroup in turn.
pub open spec fn tree_group_names(g: SpecGroup) -> Seq<SpecName>
    decreases g,
{
    seq![g.name] + children_group_names(g.repeating_children)
}

pub open spec fn children_group_names(cs: Seq<(SpecPoint, SpecGroup)>) -> Seq<SpecName>
    decreases cs,
{
    if cs.len() == 0 {
        Seq::empty()
    } else {
        children_group_names(cs.drop_last()) + tree_group_names(cs.last().1)
    }
}

/// `p` under the name `n`.
pub open spec fn with_name(p: SpecPoint, n: SpecName) -> SpecPoint {
    SpecPoint { name: n, ..p }
}

/// `ps` renamed one by one with `names`.
pub open spec fn renamed_points(ps: Seq<SpecPoint>, names: Seq<SpecName>) -> Seq<SpecPoint> {
    Seq::new(ps.len(), |i: int| with_name(ps[i], names[i]))
}

/// A count point under the name of the first point of `top` with its schema
/// name (the model field it reads), or unchanged when there is none.
pub open spec fn renamed_count(cp: SpecPoint, top: Seq<SpecPoint>) -> SpecPoint {
    match find_point(top, cp.internal_name) {
        Some(q) => with_name(cp, q.name),
        None => cp,
    }
}

/// The first position in `s` of an enum with the snake_case name `k`.
pub open spec fn first_key_index(s: Seq<SpecEnum>, k: Seq<char>) -> Option<int>
    decreases s.len(),
{
    if s.len() == 0 {
        None
    } else if enum_key(s[0]) == k {
        Some(0)
    } else {
        match first_key_index(s.drop_first(), k) {
            Some(i) => Some(i + 1),
            None => None,
        }
    }
}

/// A copy of an enum under the name that `names` gives the enum of `top_enums` with
/// the same snake_case name (the first such), or unchanged when `top_enums` has none.
pub open spec fn renamed_enum(e: SpecEnum, top_enums: Seq<SpecEnum>, names: Seq<SpecName>) -> SpecEnum {
    match first_key_index(top_enums, enum_key(e)) {
        Some(i) => SpecEnum { name: names[i], ..e },
        None => e,
    }
}

/// `g` with the names of its subtree's points and groups taken in
/// registration order from `pn` and `gn`; count points follow the renamed
/// top-level points `top`, and every enum follows the top-level enum of
/// `top_enums` with its snake_case name, renamed by `en`.
pub open spec fn renamed_group(
    g: SpecGroup,
    pn: Seq<SpecName>,
    gn: Seq<SpecName>,
    top: Seq<SpecPoint>,
    top_enums: Seq<SpecEnum>,
    en: Seq<SpecName>,
) -> SpecGroup
    decreases g,
{
    SpecGroup {
        name: gn[0],
        points: renamed_points(g.points, pn),
        enums: g.enums.map_values(|e: SpecEnum| renamed_enum(e, top_enums, en)),
        repeating_children: renamed_children(
            g.repeating_children,
            pn.skip(g.points.len() as int),
            gn.skip(1),
            top,
            top_enums,
            en,
        ),
        ..g
    }
}

pub open spec fn renamed_children(
    cs: Seq<(SpecPoint, SpecGroup)>,
    pn: Seq<SpecName>,
    gn: Seq<SpecName>,
    top: Seq<SpecPoint>,
    top_enums: Seq<SpecEnum>,
    en: Seq<SpecName>,
) -> Seq<(SpecPoint, SpecGroup)>
    decreases cs,
{
    if cs.len() == 0 {
        Seq::empty()
    } else {
        let prev = cs.drop_last();
        renamed_children(prev, pn, gn, top, top_enums, en).push(
            (
                renamed_count(cs.last().0, top),
                renamed_group(
                    cs.last().1,
                    pn.skip(children_point_names(prev).len() as int),
                    gn.skip(children_group_names(prev).len() as int),
                    top,
                    top_enums,
                    en,
                ),
            ),
        )
    }
}


proof fn lemma_children_names_prefix(cs: Seq<(SpecPoint, SpecGroup)>, j: int)
    requires
        0 <= j <= cs.len(),
    ensures
        children_point_names(cs.take(j)).len() <= children_point_names(cs).len(),
        children_group_names(cs.take(j)).len() <= children_group_names(cs).len(),
    decreases cs.len(),
{
    if j == cs.len() {
        assert(cs.take(j) =~= cs);
    } else {
        assert(cs.drop_last().take(j) =~= cs.take(j));
        lemma_children_names_prefix(cs.drop_last(), j);
    }
}

/// Renaming a subtree gives its points and groups exactly the names handed
/// to it, in registration order.
pub proof fn lemma_renamed_names(
    g: SpecGroup,
    pn: Seq<SpecName>,
    gn: Seq<SpecName>,
    top: Seq<SpecPoint>,
    top_enums: Seq<SpecEnum>,
    en: Seq<SpecName>,
)
    requires
        pn.len() >= tree_point_names(g).len(),
        gn.len() >= tree_group_names(g).len(),
    ensures
        tree_point_names(renamed_group(g, pn, gn, top, top_enums, en)) == pn.take(tree_point_names(g).len() as int),
        tree_group_names(renamed_group(g, pn, gn, top, top_enums, en)) == gn.take(tree_group_names(g).len() as int),
    decreases g,
{
    let np = g.points.len() as int;
    let r = renamed_group(g, pn, gn, top, top_enums, en);
    lemma_renamed_children_names(g.repeating_children, pn.skip(np), gn.skip(1), top, top_enums, en);
    assert(r.points.map_values(|p: SpecPoint| p.name) =~= pn.take(np));
    assert(tree_point_names(r) =~= pn.take(tree_point_names(g).len() as int));
    assert(tree_group_names(r) =~= gn.take(tree_group_names(g).len() as int));
}

proof fn lemma_renamed_children_names(
    cs: Seq<(SpecPoint, SpecGroup)>,
    pn: Seq<SpecName>,
    gn: Seq<SpecName>,
    top: Seq<SpecPoint>,
    top_enums: Seq<SpecEnum>,
    en: Seq<SpecName>,
)
    requires
        pn.len() >= children_point_names(cs).len(),
        gn.len() >= children_group_names(cs).len(),
    ensures
        children_point_names(renamed_children(cs, pn, gn, top, top_enums, en)) == pn.take(
            children_point_names(cs).len() as int,
        ),
        children_group_names(renamed_children(cs, pn, gn, top, top_enums, en)) == gn.take(
            children_group_names(cs).len() as int,
        ),
        renamed_children(cs, pn, gn, top, top_enums, en).len() == cs.len(),
    decreases cs,
{
    if cs.len() > 0 {
        let prev = cs.drop_last();
        let a = children_point_names(prev).len() as int;
        let b = children_group_names(prev).len() as int;
        lemma_renamed_children_names(prev, pn, gn, top, top_enums, en);
        lemma_renamed_names(cs.last().1, pn.skip(a), gn.skip(b), top, top_enums, en);
        let rc = renamed_children(cs, pn, gn, top, top_enums, en);
        assert(rc.drop_last() =~= renamed_children(prev, pn, gn, top, top_enums, en));
        assert(children_point_names(rc) =~= pn.take(children_point_names(cs).len() as int));
        assert(children_group_names(rc) =~= gn.take(children_group_names(cs).len() as int));
    }
}

proof fn lemma_first_key_index(s: Seq<SpecEnum>, k: Seq<char>)
    ensures
        match first_key_index(s, k) {
            Some(i) => 0 <= i < s.len() && enum_key(s[i]) == k && forall|j: int|
                0 <= j < i ==> enum_key(#[trigger] s[j]) != k,
            None => forall|j: int| 0 <= j < s.len() ==> enum_key(#[trigger] s[j]) != k,
        },
    decreases s.len(),
{
    if s.len() > 0 && enum_key(s[0]) != k {
        lemma_first_key_index(s.drop_first(), k);
        match first_key_index(s.drop_first(), k) {
            Some(i) => {
                assert forall|j: int| 0 <= j < i + 1 implies enum_key(#[trigger] s[j]) != k by {
                    if j > 0 {
                        assert(s[j] == s.drop_first()[j - 1]);
                    }
                }
            },
            None => {
                assert forall|j: int| 0 <= j < s.len() implies enum_key(#[trigger] s[j]) != k by {
                    if j > 0 {
                        assert(s[j] == s.drop_first()[j - 1]);
                    }
                }
            },
        }
    }
}

/// The position in `top_enums` of the first enum with the snake_case name `key`.
fn find_enum_key(top_enums: &Vec<ResolvedEnum>, key: &String) -> (r: Option<usize>)
    ensures
        match r {
            Some(i) => first_key_index(enums_view(top_enums@), key@) == Some(i as int),
            None => first_key_index(enums_view(top_enums@), key@) is None,
        },
{
    let ghost s = enums_view(top_enums@);
    proof {
        lemma_first_key_index(s, key@);
    }
    let mut i: usize = 0;
    while i < top_enums.len()
        invariant
            s == enums_view(top_enums@),
            i <= top_enums@.len(),
            forall|j: int| 0 <= j < i ==> enum_key(#[trigger] s[j]) != key@,
            match first_key_index(s, key@) {
                Some(f) => 0 <= f < s.len() && enum_key(s[f]) == key@ && forall|j: int|
                    0 <= j < f ==> enum_key(#[trigger] s[j]) != key@,
                None => forall|j: int| 0 <= j < s.len() ==> enum_key(#[trigger] s[j]) != key@,
            },
        decreases top_enums@.len() - i,
    {
        if top_enums[i].name.snake_case == *key {
            assert(enum_key(s[i as int]) == key@);
            return Some(i);
        }
        i = i + 1;
    }
    None
}

fn rename_group(
    g: &ResolvedGroup,
    pn: &Vec<Name>,
    pi: usize,
    gn: &Vec<Name>,
    gi: usize,
    top: &Vec<ResolvedPoint>,
    top_enums: &Vec<ResolvedEnum>,
    en: &Vec<Name>,
) -> (r: (ResolvedGroup, usize, usize))
    requires
        pi + tree_point_names(g@).len() <= pn@.len(),
        gi + tree_group_names(g@).len() <= gn@.len(),
        en@.len() == top_enums@.len(),
    ensures
        r.0@ == renamed_group(
            g@,
            names_view(pn@).skip(pi as int),
            names_view(gn@).skip(gi as int),
            points_view(top@),
            enums_view(top_enums@),
            names_view(en@),
        ),
        r.1 == tree_point_names(g@).len(),
        r.2 == tree_group_names(g@).len(),
    decreases g,
{
    let ghost gv = g@;
    let ghost pns = names_view(pn@);
    let ghost gns = names_view(gn@);
    let ghost tv = points_view(top@);
    let ghost ov = enums_view(top_enums@);
    let ghost ens = names_view(en@);
    let pn_len = pn.len();
    let gn_len = gn.len();
    assert(tree_point_names(gv).len() == gv.points.len() + children_point_names(
        gv.repeating_children,
    ).len());
    assert(tree_group_names(gv).len() == 1 + children_group_names(gv.repeating_children).len());
    let mut points: Vec<ResolvedPoint> = Vec::new();
    let mut i: usize = 0;
    while i < g.points.len()
        invariant
            gv == g@,
            pns == names_view(pn@),
            pi + tree_point_names(gv).len() <= pn@.len(),
            pn_len == pn@.len(),
            tree_point_names(gv).len() >= gv.points.len(),
            i <= g.points@.len(),
            points@.len() == i,
            forall|k: int|
                0 <= k < i ==> (#[trigger] points@[k])@ == with_name(g.points@[k]@, pns[pi + k]),
        decreases g.points@.len() - i,
    {
        assert(gv.points.len() == g.points@.len());
        let mut p = g.points[i].copy();
        p.name = pn[pi + i].copy();
        points.push(p);
        i = i + 1;
    }
    assert(points_view(points@) =~= renamed_points(gv.points, pns.skip(pi as int)));
    let np = g.points.len();
    assert(gv.points.len() == np);
    assert(gn@.len() == gn.len());
    proof {
        lemma_children_view_index(g.repeating_children@);
    }
    let ghost cs = gv.repeating_children;
    let ghost ps = pns.skip(pi + np);
    let ghost gs = gns.skip(gi + 1);
    let mut children: Vec<(ResolvedPoint, Box<ResolvedGroup>)> = Vec::new();
    let mut po: usize = pi + np;
    let mut go: usize = gi + 1;
    let mut j: usize = 0;
    assert(cs.take(0) =~= Seq::<(SpecPoint, SpecGroup)>::empty());
    while j < g.repeating_children.len()
        invariant
            gv == g@,
            pns == names_view(pn@),
            gns == names_view(gn@),
            tv == points_view(top@),
            cs == gv.repeating_children,
            cs == children_view(g.repeating_children@),
            cs.len() == g.repeating_children@.len(),
            forall|k: int|
                0 <= k < g.repeating_children@.len() ==> #[trigger] cs[k] == (
                    g.repeating_children@[k].0@,
                    group_view(*g.repeating_children@[k].1),
                ),
            ps == pns.skip(pi + np),
            gs == gns.skip(gi + 1),
            np == gv.points.len(),
            pi + tree_point_names(gv).len() <= pn@.len(),
            gi + tree_group_names(gv).len() <= gn@.len(),
            pn_len == pn@.len(),
            gn_len == gn@.len(),
            tree_point_names(gv).len() == np + children_point_names(cs).len(),
            tree_group_names(gv).len() == 1 + children_group_names(cs).len(),
            j <= cs.len(),
            po == pi + np + children_point_names(cs.take(j as int)).len(),
            go == gi + 1 + children_group_names(cs.take(j as int)).len(),
            children_view(children@) == renamed_children(cs.take(j as int), ps, gs, tv, ov, ens),
            ov == enums_view(top_enums@),
            ens == names_view(en@),
            en@.len() == top_enums@.len(),
        decreases cs.len() - j,
    {
        let count: &ResolvedPoint = &g.repeating_children[j].0;
        let child: &ResolvedGroup = &g.repeating_children[j].1;
        assert(cs[j as int] == (count@, child@));
        let ghost pre = cs.take(j as int);
        assert(cs.take(j + 1).drop_last() =~= pre);
        assert(cs.take(j + 1).last() == cs[j as int]);
        proof {
            lemma_children_names_prefix(cs, j + 1);
        }
        let (cg, pc, gc) = rename_group(child, pn, po, gn, go, top, top_enums, en);
        let mut c = count.copy();
        match find_count_point(top.as_slice(), &c.internal_name) {
            Some(q) => {
                c.name = q.name.copy();
            },
            None => {},
        }
        assert(pns.skip(po as int) =~= ps.skip(children_point_names(pre).len() as int));
        assert(gns.skip(go as int) =~= gs.skip(children_group_names(pre).len() as int));
        let ghost before = children@;
        children.push((c, Box::new(cg)));
        proof {
            assert(children@.drop_last() =~= before);
            assert(children_view(children@) == children_view(before).push((c@, cg@)));
            assert(children_point_names(cs.take(j + 1)).len() == children_point_names(pre).len()
                + tree_point_names(child@).len());
            assert(children_group_names(cs.take(j + 1)).len() == children_group_names(pre).len()
                + tree_group_names(child@).len());
        }
        po = po + pc;
        go = go + gc;
        j = j + 1;
    }
    assert(cs.take(j as int) =~= cs);
    let mut enums: Vec<ResolvedEnum> = Vec::new();
    let mut m: usize = 0;
    while m < g.enums.len()
        invariant
            gv == g@,
            ov == enums_view(top_enums@),
            ens == names_view(en@),
            en@.len() == top_enums@.len(),
            m <= g.enums@.len(),
            enums@.len() == m,
            forall|q: int|
                0 <= q < m ==> (#[trigger] enums@[q])@ == renamed_enum(g.enums@[q]@, ov, ens),
        decreases g.enums@.len() - m,
    {
        let mut e = g.enums[m].copy();
        proof {
            lemma_first_key_index(ov, e@.name.snake_case);
        }
        match find_enum_key(top_enums, &e.name.snake_case) {
            Some(k) => {
                assert(ens[k as int] == en@[k as int]@);
                e.name = en[k].copy();
            },
            None => {},
        }
        assert(e@ == renamed_enum(g.enums@[m as int]@, ov, ens));
        enums.push(e);
        m = m + 1;
    }
    assert(enums_view(enums@) =~= gv.enums.map_values(|e: SpecEnum| renamed_enum(e, ov, ens)));
    let mut r = g.copy();
    r.name = gn[gi].copy();
    r.points = points;
    r.enums = enums;
    r.repeating_children = children;
    proof {
        assert(r@.points == renamed_points(gv.points, pns.skip(pi as int)));
        assert(pns.skip(pi as int).skip(np as int) =~= ps);
        assert(gns.skip(gi as int).skip(1) =~= gs);
        assert(gns.skip(gi as int)[0] == gn@[gi as int]@);
        let want = renamed_group(gv, pns.skip(pi as int), gns.skip(gi as int), tv, ov, ens);
        assert(r@.name == want.name);
        assert(r@.points == want.points);
        assert(r@.repeating_children == want.repeating_children);
        assert(r@.enums == want.enums);
    }
    (r, po - pi, go - gi)
}

/* Count points */

/// `acc` already holds a count point of this schema name.
pub open spec fn has_count(acc: Seq<SpecPoint>, name: Seq<char>) -> bool {
    spec_names(acc).contains(name)
}

/// `acc` followed by the count points of `g`'s subtree, each new schema name
/// once, in the order first met.
pub open spec fn collect_counts(g: SpecGroup, acc: Seq<SpecPoint>) -> Seq<SpecPoint>
    decreases g, 1nat, 0nat,
{
    collect_children(g, g.repeating_children.len(), acc)
}

pub open spec fn collect_children(g: SpecGroup, n: nat, acc: Seq<SpecPoint>) -> Seq<SpecPoint>
    decreases g, 0nat, n,
{
    if n == 0 || n > g.repeating_children.len() {
        acc
    } else {
        let prev = collect_children(g, (n - 1) as nat, acc);
        let cp = g.repeating_children[n - 1].0;
        let added = if has_count(prev, cp.internal_name) {
            prev
        } else {
            prev.push(cp)
        };
        collect_counts(g.repeating_children[n - 1].1, added)
    }
}

fn holds_count(count_points: &Vec<CountPoint>, name: &String) -> (b: bool)
    ensures
        b == has_count(count_points_view(count_points@), name@),
{
    let ghost acc = count_points_view(count_points@);
    let mut i: usize = 0;
    while i < count_points.len()
        invariant
            i <= count_points@.len(),
            acc == count_points_view(count_points@),
            forall|k: int| 0 <= k < i ==> (#[trigger] spec_names(acc)[k]) != name@,
        decreases count_points@.len() - i,
    {
        if count_points[i].point.internal_name == *name {
            assert(spec_names(acc)[i as int] == name@);
            return true;
        }
        i = i + 1;
    }
    false
}

/// Adds to `count_points` one [`CountPoint`] per repeat count in `group`'s
/// subtree that it does not hold yet (by schema name), in the order first met.
pub fn collect_count_points(group: &ResolvedGroup, count_points: &mut Vec<CountPoint>)
    ensures
        count_points_view(final(count_points)@) == collect_counts(
            group@,
            count_points_view(old(count_points)@),
        ),
    decreases group,
{
    let ghost g = group@;
    let ghost acc0 = count_points_view(count_points@);
    proof {
        lemma_children_view_index(group.repeating_children@);
    }
    let mut j: usize = 0;
    while j < group.repeating_children.len()
        invariant
            j <= group.repeating_children@.len(),
            g == group@,
            g.repeating_children.len() == group.repeating_children@.len(),
            forall|k: int|
                0 <= k < group.repeating_children@.len() ==> #[trigger] g.repeating_children[k] == (
                    group.repeating_children@[k].0@,
                    group_view(*group.repeating_children@[k].1),
                ),
            count_points_view(count_points@) == collect_children(g, j as nat, acc0),
        decreases group.repeating_children@.len() - j,
    {
        let count_point: &ResolvedPoint = &group.repeating_children[j].0;
        let child: &ResolvedGroup = &group.repeating_children[j].1;
        assert(g.repeating_children[j as int].0 == count_point@);
        assert(g.repeating_children[j as int].1 == child@);
        if !holds_count(count_points, &count_point.internal_name) {
            let ghost before = count_points_view(count_points@);
            count_points.push(CountPoint { point: count_point.copy() });
            assert(count_points_view(count_points@) =~= before.push(count_point@));
        }
        collect_count_points(child, count_points);
        j = j + 1;
    }
}

/* Models */

/// A resolved model: its top-level group with everything below it, under
/// deduplicated names, the code features it needs, and its count points.
#[derive(Debug)]
pub struct ResolvedModel {
    pub name: Name,
    /// Each feature at most once.
    pub features: Vec<CodegenFeature>,
    pub model_number: u16,
    pub group: ResolvedGroup,
    pub count_points: Vec<CountPoint>,
}

impl Named for ResolvedModel {
    open spec fn spec_name(&self) -> SpecName {
        self.name@
    }

    fn name_ref(&self) -> (r: &Name)
        ensures
            r == &self.name,
    {
        &self.name
    }
}

/// The top-level group of `model`, resolved.
pub open spec fn spec_model_group(model: SunspecModel) -> SpecGroup {
    spec_group(model.group, None, mk_ctx(Seq::empty(), Seq::empty(), None, Seq::empty()))
}

/// The enum names registered for a model: one per enum of its top-level group.
pub open spec fn enum_registrations(g: SpecGroup) -> Seq<SpecNameEntry> {
    g.enums.map_values(|e: SpecEnum| SpecNameEntry { name: e.name, fallback: None })
}

/// The resolved top-level group `g` once its point, group and enum names are
/// deduplicated. Registered names behave as handles shared by every copy of
/// a name: every point and group of the subtree takes its name from the
/// deduplicated registrations, in registration order; each count point is a
/// copy of the top-level point it reads and takes that point's name; and
/// every enum, in the top-level list or a copy bubbled up through a group
/// below, takes the deduplicated name of the top-level enum with its
/// snake_case name.
pub open spec fn named_group(g: SpecGroup) -> SpecGroup {
    let pn = deduplicated(point_registrations(g));
    let gn = deduplicated(group_registrations(g));
    let en = deduplicated(enum_registrations(g));
    renamed_group(g, pn, gn, renamed_points(g.points, pn), g.enums, en)
}

/// The schema is one `resolve_model` accepts: every size it adds up fits.
pub open spec fn model_fits(model: SunspecModel) -> bool {
    group_fits(model.group, point_names(model.group.points@))
}

proof fn lemma_registration_names(g: SpecGroup)
    ensures
        entry_names(point_registrations(g)) == tree_point_names(g),
        entry_names(group_registrations(g)) == tree_group_names(g),
    decreases g, 1nat, 0nat,
{
    let n = g.repeating_children.len();
    lemma_children_registration_names(g, n);
    assert(g.repeating_children.take(n as int) =~= g.repeating_children);
    assert(entry_names(point_registrations(g)) =~= tree_point_names(g));
    assert(entry_names(group_registrations(g)) =~= tree_group_names(g));
}

proof fn lemma_children_registration_names(g: SpecGroup, n: nat)
    requires
        n <= g.repeating_children.len(),
    ensures
        entry_names(children_point_registrations(g, n)) == children_point_names(
            g.repeating_children.take(n as int),
        ),
        entry_names(children_group_registrations(g, n)) == children_group_names(
            g.repeating_children.take(n as int),
        ),
    decreases g, 0nat, n,
{
    if n > 0 {
        let cs = g.repeating_children.take(n as int);
        lemma_children_registration_names(g, (n - 1) as nat);
        lemma_registration_names(g.repeating_children[n - 1].1);
        assert(cs.drop_last() =~= g.repeating_children.take(n - 1));
        assert(cs.last() == g.repeating_children[n - 1]);
        assert(entry_names(children_point_registrations(g, n)) =~= children_point_names(cs));
        assert(entry_names(children_group_registrations(g, n)) =~= children_group_names(cs));
    } else {
        assert(entry_names(children_point_registrations(g, n)) =~= Seq::<SpecName>::empty());
        assert(entry_names(children_group_registrations(g, n)) =~= Seq::<SpecName>::empty());
    }
}

/// After resolution no two points of the model (across its top-level group
/// and every repeating group below it), no two groups, and no two top-level
/// enums share a snake_case or PascalCase name.
pub proof fn lemma_model_names_distinct(g: SpecGroup)
    requires
        forall|i: int, j: int|
            0 <= i < j < g.enums.len() ==> enum_key(#[trigger] g.enums[i]) != enum_key(#[trigger] g.enums[j]),
    ensures
        distinct_names(tree_point_names(named_group(g))),
        distinct_names(tree_group_names(named_group(g))),
        distinct_names(named_group(g).enums.map_values(|e: SpecEnum| e.name)),
{
    let pr = point_registrations(g);
    let gr = group_registrations(g);
    let er = enum_registrations(g);
    let pn = deduplicated(pr);
    let gn = deduplicated(gr);
    let en = deduplicated(er);
    lemma_deduplicated_distinct(pr, pr.len());
    lemma_deduplicated_distinct(gr, gr.len());
    lemma_deduplicated_distinct(er, er.len());
    lemma_registration_names(g);
    assert(entry_names(pr).len() == pr.len());
    assert(entry_names(gr).len() == gr.len());
    let top = renamed_points(g.points, pn);
    let r = renamed_group(g, pn, gn, top, g.enums, en);
    lemma_renamed_names(g, pn, gn, top, g.enums, en);
    assert(pn.take(pn.len() as int) =~= pn);
    assert(gn.take(gn.len() as int) =~= gn);
    let ng = named_group(g);
    assert(tree_point_names(ng) == tree_point_names(r));
    assert(tree_group_names(ng) == tree_group_names(r));
    assert forall|i: int| 0 <= i < g.enums.len() implies first_key_index(g.enums, enum_key(
        #[trigger] g.enums[i],
    )) == Some(i) by {
        lemma_first_key_index(g.enums, enum_key(g.enums[i]));
        match first_key_index(g.enums, enum_key(g.enums[i])) {
            Some(f) => {
                if f < i {
                    assert(enum_key(g.enums[f]) != enum_key(g.enums[i]));
                }
                if f > i {
                }
            },
            None => {},
        }
    }
    assert(ng.enums.map_values(|e: SpecEnum| e.name) =~= en);
}

/// Resolves the schema `model`, read from the file named `file_name`
/// (`model_` followed by the model number), and deduplicates the names of
/// its points, groups and enums. A registered name stands for every copy of
/// it in the resolved tree, as a shared handle would: count points follow the
/// top-level point they read, and enum copies below the top level follow the
/// top-level enum of their snake_case name (see [`named_group`]).
pub fn resolve_model(model: &SunspecModel, file_name: String) -> (r: ResolvedModel)
    requires
        model_number_of(file_name@) is Some,
        model_fits(*model),
    ensures
        Some(r.model_number) == model_number_of(file_name@),
        r.name@ == (SpecName {
            snake_case: snake_case_of(file_name@),
            pascal_case: pascal_case_of(file_name@),
        }),
        r.group@ == named_group(spec_model_group(*model)),
        distinct_names(tree_point_names(r.group@)),
        distinct_names(tree_group_names(r.group@)),
        distinct_names(r.group@.enums.map_values(|e: SpecEnum| e.name)),
        r.features@.no_duplicates(),
        r.features@.to_set() == string_set(
            group_uses_strings(model.group, point_names(model.group.points@)),
        ),
        count_points_view(r.count_points@) == collect_counts(r.group@, Seq::empty()),
{
    let model_number = match model_number(file_name.as_str()) {
        Some(n) => n,
        None => 0,
    };
    let mut features: Vec<CodegenFeature> = Vec::new();
    let empty_ident = String::new();
    let empty_short = String::new();
    let blocks: Vec<BlockIndex> = Vec::new();
    assert(blocks_view(blocks@) =~= Seq::<SpecBlockIndex>::empty());
    let group = resolve_group(
        &model.group,
        None,
        &mut features,
        empty_ident.as_str(),
        empty_short.as_str(),
        None,
        blocks,
    );
    assert(features@.to_set() =~= string_set(
        group_uses_strings(model.group, point_names(model.group.points@)),
    ));
    let ghost g = group@;
    let mut point_names = NameTable::new();
    let mut group_names = NameTable::new();
    register_names(&group, &mut point_names, &mut group_names);
    let mut enum_names = NameTable::new();
    let mut i: usize = 0;
    while i < group.enums.len()
        invariant
            i <= group.enums@.len(),
            enum_names@ == enum_registrations(group@).subrange(0, i as int),
        decreases group.enums@.len() - i,
    {
        enum_names.register_unique(group.enums[i].name.copy());
        assert(enum_names@ =~= enum_registrations(group@).subrange(0, i + 1));
        i = i + 1;
    }
    assert(enum_registrations(group@).subrange(0, i as int) =~= enum_registrations(group@));
    assert(point_names@ =~= point_registrations(g));
    assert(group_names@ =~= group_registrations(g));
    point_names.deduplicate();
    group_names.deduplicate();
    enum_names.deduplicate();
    let pn = point_names.names();
    let gn = group_names.names();
    let en = enum_names.names();
    proof {
        let pr = point_registrations(g);
        let gr = group_registrations(g);
        let er = enum_registrations(g);
        lemma_deduplicated_distinct(pr, pr.len());
        lemma_deduplicated_distinct(gr, gr.len());
        lemma_deduplicated_distinct(er, er.len());
        assert(names_view(pn@) =~= deduplicated(pr));
        assert(names_view(gn@) =~= deduplicated(gr));
        assert(names_view(en@) =~= deduplicated(er));
        lemma_registration_names(g);
        assert(entry_names(pr).len() == pr.len());
        assert(entry_names(gr).len() == gr.len());
        assert(tree_point_names(g).len() == g.points.len() + children_point_names(
            g.repeating_children,
        ).len());
    }
    let mut top: Vec<ResolvedPoint> = Vec::new();
    let mut k: usize = 0;
    while k < group.points.len()
        invariant
            g == group@,
            k <= group.points@.len(),
            group.points@.len() <= pn@.len(),
            top@.len() == k,
            forall|m: int|
                0 <= m < k ==> (#[trigger] top@[m])@ == with_name(group.points@[m]@, pn@[m]@),
        decreases group.points@.len() - k,
    {
        let mut p = group.points[k].copy();
        p.name = pn[k].copy();
        top.push(p);
        k = k + 1;
    }
    assert(points_view(top@) =~= renamed_points(g.points, names_view(pn@)));
    assert(names_view(pn@).skip(0) =~= names_view(pn@));
    assert(names_view(gn@).skip(0) =~= names_view(gn@));
    let (named, _, _) = rename_group(&group, &pn, 0, &gn, 0, &top, &group.enums, &en);
    let mut count_points: Vec<CountPoint> = Vec::new();
    assert(count_points_view(count_points@) =~= Seq::<SpecPoint>::empty());
    collect_count_points(&named, &mut count_points);
    proof {
        crate::properties::lemma_group_enums_sorted(
            model.group,
            None,
            mk_ctx(Seq::empty(), Seq::empty(), None, Seq::empty()),
        );
        lemma_model_names_distinct(g);
    }
    let name = Name::new(
        to_snake_case(file_name.as_str()),
        to_pascal_case(file_name.as_str()),
    );
    ResolvedModel { model_number, name, group: named, features, count_points }
}

} // verus!
