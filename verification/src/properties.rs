use crate::group::{
    children_enums, enum_key, flatten_children, flatten_enums, flatten_points, fixed_ctx,
    insert_enum, own_enums, repeating_ctx, root_points_spec, sort_dedup_enums, spec_direct,
    spec_fixed, spec_group, spec_identity, text_lt, SpecCtx, SpecGroup,
};
use crate::case::{pascal_case_of, snake_case_of};
use crate::model::{
    children_group_names, children_point_names, collect_children, collect_counts, enum_registrations,
    first_key_index, group_registrations, has_count, named_group, point_registrations, renamed_children,
    renamed_count, renamed_group, renamed_points, with_name,
};
use crate::naming::{deduplicated, SpecName};
use crate::text::spaced;
use vstd::string::*;
use crate::group::{find_point, group_label_text, spec_names};
use crate::resolved::{CastFromC, SpecBlockIndex, SpecEnum, SpecPoint};
use crate::point::{
    has_set_prefix, is_enum_point, main_name_text, point_name_text, spec_point, spec_point_type, spec_resolve_enum, spec_value_type};
use crate::resolved::SpecValueType;
use crate::text::decimal_text;
use crate::model::spec_model_group;
use crate::group::mk_ctx;
use crate::schema::SunspecModel;
use crate::schema::{
    is_found_repeating, is_visited, Point,
    fixed_use, found_use, group_uses_strings, is_fixed, own_uses_strings, point_names, schema_sizes, sum_sizes, Group, GroupCount, PointAccess, PointType};
use vstd::prelude::*;

verus! {

/* The order of names */

/// No name sorts before itself.
pub proof fn lemma_text_lt_irreflexive(a: Seq<char>)
    ensures
        !text_lt(a, a),
    decreases a.len(),
{
    if a.len() > 0 {
        lemma_text_lt_irreflexive(a.drop_first());
    }
}

/// Of two different names, exactly one sorts before the other.
pub proof fn lemma_text_lt_total(a: Seq<char>, b: Seq<char>)
    ensures
        a != b ==> (text_lt(a, b) || text_lt(b, a)),
        !(text_lt(a, b) && text_lt(b, a)),
    decreases a.len(),
{
    if a.len() > 0 && b.len() > 0 && a[0] == b[0] {
        lemma_text_lt_total(a.drop_first(), b.drop_first());
        if a.drop_first() == b.drop_first() {
            assert forall|i: int| 0 <= i < a.len() implies a[i] == b[i] by {
                if i > 0 {
                    assert(a[i] == a.drop_first()[i - 1]);
                    assert(b[i] == b.drop_first()[i - 1]);
                }
            }
            assert(a =~= b);
        }
    } else if a.len() == 0 && b.len() == 0 {
        assert(a =~= b);
    } else if a.len() > 0 && b.len() > 0 {
        vstd::utf8::char_u32_cast(a[0], a[0] as u32);
        vstd::utf8::char_u32_cast(b[0], b[0] as u32);
    }
}

/// The order of names is transitive.
pub proof fn lemma_text_lt_transitive(a: Seq<char>, b: Seq<char>, c: Seq<char>)
    requires
        text_lt(a, b),
        text_lt(b, c),
    ensures
        text_lt(a, c),
    decreases a.len(),
{
    if a.len() > 0 && b.len() > 0 && c.len() > 0 && a[0] == b[0] && b[0] == c[0] {
        lemma_text_lt_transitive(a.drop_first(), b.drop_first(), c.drop_first());
    }
}

/* Sorting and deduplicating enums */

/// Each enum sorts strictly before the next.
pub open spec fn strictly_sorted(s: Seq<SpecEnum>) -> bool {
    forall|i: int, j: int| 0 <= i < j < s.len() ==> text_lt(enum_key(#[trigger] s[i]), enum_key(#[trigger] s[j]))
}

pub open spec fn has_key(s: Seq<SpecEnum>, k: Seq<char>) -> bool {
    exists|i: int| 0 <= i < s.len() && enum_key(#[trigger] s[i]) == k
}

proof fn lemma_insert_enum(s: Seq<SpecEnum>, e: SpecEnum)
    requires
        strictly_sorted(s),
    ensures
        strictly_sorted(insert_enum(s, e)),
        has_key(s, enum_key(e)) ==> insert_enum(s, e) == s,
        !has_key(s, enum_key(e)) ==> insert_enum(s, e).len() == s.len() + 1,
        forall|x: SpecEnum|
            #[trigger] insert_enum(s, e).contains(x) <==> (s.contains(x) || (x == e && !has_key(
                s,
                enum_key(e),
            ))),
    decreases s.len(),
{
    let r = insert_enum(s, e);
    if s.len() == 0 {
        assert forall|x: SpecEnum| #[trigger] r.contains(x) <==> (s.contains(x) || (x == e
            && !has_key(s, enum_key(e)))) by {
            if r.contains(x) {
                assert(r[0] == e);
            }
            if x == e {
                assert(r[0] == e);
            }
        }
    } else if enum_key(e) == enum_key(s[0]) {
        assert(has_key(s, enum_key(e))) by {
            assert(enum_key(s[0]) == enum_key(e));
        }
    } else if text_lt(enum_key(e), enum_key(s[0])) {
        assert(!has_key(s, enum_key(e))) by {
            if has_key(s, enum_key(e)) {
                let k = choose|k: int| 0 <= k < s.len() && enum_key(#[trigger] s[k]) == enum_key(e);
                if k > 0 {
                    lemma_text_lt_total(enum_key(s[0]), enum_key(e));
                    assert(text_lt(enum_key(s[0]), enum_key(s[k])));
                } else {
                }
            }
        }
        assert forall|i: int, j: int| 0 <= i < j < r.len() implies text_lt(
            enum_key(#[trigger] r[i]),
            enum_key(#[trigger] r[j]),
        ) by {
            if i == 0 {
                if j > 1 {
                    assert(text_lt(enum_key(s[0]), enum_key(s[j - 1])));
                    lemma_text_lt_transitive(enum_key(e), enum_key(s[0]), enum_key(s[j - 1]));
                }
            } else {
                assert(r[i] == s[i - 1] && r[j] == s[j - 1]);
            }
        }
        assert forall|x: SpecEnum| #[trigger] r.contains(x) <==> (s.contains(x) || (x == e
            && !has_key(s, enum_key(e)))) by {
            if r.contains(x) {
                let k = choose|k: int| 0 <= k < r.len() && r[k] == x;
                if k > 0 {
                    assert(s[k - 1] == x);
                }
            }
            if s.contains(x) {
                let k = choose|k: int| 0 <= k < s.len() && s[k] == x;
                assert(r[k + 1] == x);
            }
            if x == e {
                assert(r[0] == e);
            }
        }
    } else {
        lemma_text_lt_total(enum_key(e), enum_key(s[0]));
        let rest = s.drop_first();
        assert(strictly_sorted(rest)) by {
            assert forall|i: int, j: int| 0 <= i < j < rest.len() implies text_lt(
                enum_key(#[trigger] rest[i]),
                enum_key(#[trigger] rest[j]),
            ) by {
                assert(rest[i] == s[i + 1] && rest[j] == s[j + 1]);
            }
        }
        lemma_insert_enum(rest, e);
        let ir = insert_enum(rest, e);
        assert(has_key(s, enum_key(e)) == has_key(rest, enum_key(e))) by {
            if has_key(s, enum_key(e)) {
                let k = choose|k: int| 0 <= k < s.len() && enum_key(#[trigger] s[k]) == enum_key(e);
                assert(k > 0);
                assert(rest[k - 1] == s[k]);
            }
            if has_key(rest, enum_key(e)) {
                let k = choose|k: int| 0 <= k < rest.len() && enum_key(#[trigger] rest[k]) == enum_key(
                    e,
                );
                assert(s[k + 1] == rest[k]);
            }
        }
        if has_key(s, enum_key(e)) {
            assert(r =~= s);
        } else {
            assert forall|x: SpecEnum| #[trigger] r.contains(x) <==> (s.contains(x) || (x == e
                && !has_key(s, enum_key(e)))) by {
                if r.contains(x) {
                    let k = choose|k: int| 0 <= k < r.len() && r[k] == x;
                    if k > 0 {
                        assert(ir[k - 1] == x);
                        assert(ir.contains(x));
                        if rest.contains(x) {
                            let m = choose|m: int| 0 <= m < rest.len() && rest[m] == x;
                            assert(s[m + 1] == x);
                        }
                    } else {
                        assert(s[0] == x);
                    }
                }
                if s.contains(x) {
                    let k = choose|k: int| 0 <= k < s.len() && s[k] == x;
                    if k == 0 {
                        assert(r[0] == x);
                    } else {
                        assert(rest[k - 1] == x);
                        assert(ir.contains(x));
                        let m = choose|m: int| 0 <= m < ir.len() && ir[m] == x;
                        assert(r[m + 1] == x);
                    }
                }
                if x == e {
                    assert(ir.contains(e));
                    let m = choose|m: int| 0 <= m < ir.len() && ir[m] == e;
                    assert(r[m + 1] == e);
                }
            }
            assert forall|i: int, j: int| 0 <= i < j < r.len() implies text_lt(
                enum_key(#[trigger] r[i]),
                enum_key(#[trigger] r[j]),
            ) by {
                if i == 0 {
                    let y = ir[j - 1];
                    assert(ir.contains(y));
                    if rest.contains(y) {
                        let m = choose|m: int| 0 <= m < rest.len() && rest[m] == y;
                        assert(s[m + 1] == y);
                    }
                } else {
                    assert(r[i] == ir[i - 1] && r[j] == ir[j - 1]);
                }
            }
        }
    }
}

/// The result of sorting and deduplicating `es` by snake_case name: sorted
/// strictly by name, holding each name of `es` once, and for each name the
/// first enum of `es` that has it.
pub open spec fn sorted_first_occurrences(r: Seq<SpecEnum>, es: Seq<SpecEnum>) -> bool {
    &&& strictly_sorted(r)
    &&& forall|i: int| 0 <= i < es.len() ==> has_key(r, enum_key(#[trigger] es[i]))
    &&& forall|i: int|
        0 <= i < r.len() ==> exists|j: int|
            0 <= j < es.len() && es[j] == #[trigger] r[i] && forall|k: int|
                0 <= k < j ==> enum_key(#[trigger] es[k]) != enum_key(es[j])
}

/// Sorting and deduplicating a group's enums keeps, in name order, the first
/// enum found under each name, and no name twice.
pub proof fn lemma_sort_dedup_enums(es: Seq<SpecEnum>)
    ensures
        sorted_first_occurrences(sort_dedup_enums(es), es),
    decreases es.len(),
{
    let r = sort_dedup_enums(es);
    if es.len() == 0 {
    } else {
        let prev = es.drop_last();
        let sp = sort_dedup_enums(prev);
        let e = es.last();
        lemma_sort_dedup_enums(prev);
        lemma_insert_enum(sp, e);
        assert forall|i: int| 0 <= i < es.len() implies has_key(r, enum_key(#[trigger] es[i])) by {
            if i < es.len() - 1 {
                assert(prev[i] == es[i]);
                assert(has_key(sp, enum_key(prev[i])));
                let k = choose|k: int| 0 <= k < sp.len() && enum_key(#[trigger] sp[k]) == enum_key(
                    prev[i],
                );
                assert(sp.contains(sp[k]));
                assert(r.contains(sp[k]));
                let m = choose|m: int| 0 <= m < r.len() && r[m] == sp[k];
                assert(enum_key(r[m]) == enum_key(es[i]));
            } else {
                if has_key(sp, enum_key(e)) {
                } else {
                    assert(r.contains(e));
                    let m = choose|m: int| 0 <= m < r.len() && r[m] == e;
                    assert(enum_key(r[m]) == enum_key(es[i]));
                }
            }
        }
        assert forall|i: int| 0 <= i < r.len() implies exists|j: int|
            0 <= j < es.len() && es[j] == #[trigger] r[i] && forall|k: int|
                0 <= k < j ==> enum_key(#[trigger] es[k]) != enum_key(es[j]) by {
            assert(r.contains(r[i]));
            if sp.contains(r[i]) {
                let m = choose|m: int| 0 <= m < sp.len() && sp[m] == r[i];
                let j = choose|j: int|
                    0 <= j < prev.len() && prev[j] == #[trigger] sp[m] && forall|k: int|
                        0 <= k < j ==> enum_key(#[trigger] prev[k]) != enum_key(prev[j]);
                assert(es[j] == r[i]);
                assert forall|k: int| 0 <= k < j implies enum_key(#[trigger] es[k]) != enum_key(
                    es[j],
                ) by {
                    assert(es[k] == prev[k]);
                }
            } else {
                assert(r[i] == e && !has_key(sp, enum_key(e)));
                let j = es.len() - 1;
                assert(es[j] == r[i]);
                assert forall|k: int| 0 <= k < j implies enum_key(#[trigger] es[k]) != enum_key(
                    es[j],
                ) by {
                    assert(es[k] == prev[k]);
                    assert(has_key(sp, enum_key(prev[k])));
                }
            }
        }
    }
}

/// A resolved group's enums are sorted by snake_case name, with no name twice.
pub proof fn lemma_group_enums_sorted(g: Group, top: Option<Seq<SpecPoint>>, c: SpecCtx)
    ensures
        strictly_sorted(spec_group(g, top, c).enums),
        forall|i: int, j: int|
            0 <= i < j < spec_group(g, top, c).enums.len() ==> enum_key(
                #[trigger] spec_group(g, top, c).enums[i],
            ) != enum_key(#[trigger] spec_group(g, top, c).enums[j]),
{
    let sg = spec_group(g, top, c);
    let root = root_points_spec(g, c.ident, c.prefix, c.blocks);
    let t = match top {
        Some(t) => t,
        None => root,
    };
    let fixed = spec_fixed(g, g.groups@.len() as nat, t, c);
    let repeating = spec_direct(g, g.groups@.len() as nat, t, c) + flatten_children(fixed);
    lemma_sort_dedup_enums(own_enums(g.points@) + flatten_enums(fixed) + children_enums(repeating));
    assert forall|i: int, j: int| 0 <= i < j < sg.enums.len() implies enum_key(
        #[trigger] sg.enums[i],
    ) != enum_key(#[trigger] sg.enums[j]) by {
        assert(text_lt(enum_key(sg.enums[i]), enum_key(sg.enums[j])));
        lemma_text_lt_irreflexive(enum_key(sg.enums[i]));
    }
}

/* Block indices */

/// Every point of the resolved group lies inside exactly the repeating groups
/// of its context: fixed subgroups pass the block indices through unchanged.
pub proof fn lemma_group_point_blocks(g: Group, top: Option<Seq<SpecPoint>>, c: SpecCtx)
    ensures
        forall|i: int|
            0 <= i < spec_group(g, top, c).points.len() ==> (#[trigger] spec_group(
                g,
                top,
                c,
            ).points[i]).block_indices == c.blocks,
    decreases g, 1nat, 0nat,
{
    let sg = spec_group(g, top, c);
    let root = root_points_spec(g, c.ident, c.prefix, c.blocks);
    let t = match top {
        Some(t) => t,
        None => root,
    };
    let fixed = spec_fixed(g, g.groups@.len() as nat, t, c);
    lemma_fixed_point_blocks(g, g.groups@.len() as nat, t, c);
    assert forall|i: int| 0 <= i < sg.points.len() implies (#[trigger] sg.points[i]).block_indices
        == c.blocks by {
        if i < root.len() {
            assert(sg.points[i] == root[i]);
        } else {
            assert(sg.points[i] == flatten_points(fixed)[i - root.len()]);
        }
    }
}

proof fn lemma_fixed_point_blocks(g: Group, n: nat, t: Seq<SpecPoint>, c: SpecCtx)
    ensures
        forall|i: int|
            0 <= i < flatten_points(spec_fixed(g, n, t, c)).len() ==> (#[trigger] flatten_points(
                spec_fixed(g, n, t, c),
            )[i]).block_indices == c.blocks,
    decreases g, 0nat, n,
{
    if n > 0 && n <= g.groups@.len() {
        let child = g.groups@[n - 1];
        let prev = spec_fixed(g, (n - 1) as nat, t, c);
        lemma_fixed_point_blocks(g, (n - 1) as nat, t, c);
        if is_fixed(child) {
            let cg = spec_group(child, Some(t), fixed_ctx(child, c));
            lemma_group_point_blocks(child, Some(t), fixed_ctx(child, c));
            assert(prev.push(cg).drop_last() =~= prev);
            let fp = flatten_points(prev.push(cg));
            assert forall|i: int| 0 <= i < fp.len() implies (#[trigger] fp[i]).block_indices
                == c.blocks by {
                if i < flatten_points(prev).len() {
                    assert(fp[i] == flatten_points(prev)[i]);
                } else {
                    assert(fp[i] == cg.points[i - flatten_points(prev).len()]);
                }
            }
        }
    }
}

/// The block index that selects one instance of the repeating group `ch`,
/// built from its own resolved names.
pub open spec fn own_block(ch: SpecGroup) -> SpecBlockIndex {
    SpecBlockIndex { group_name: ch.name.snake_case, index_name: ch.local_name_short + "_index"@ }
}

/// Every point `ch` lists sits inside exactly the repeating groups `blocks`
/// and then `ch` itself.
pub open spec fn indexed_by_own_block(ch: SpecGroup, blocks: Seq<SpecBlockIndex>) -> bool {
    forall|i: int| 0 <= i < ch.points.len() ==> (#[trigger] ch.points[i]).block_indices == blocks.push(own_block(ch))
}

/// Every repeating subgroup of a resolved group, whether found directly or
/// inside a fixed subgroup, lists points that sit inside exactly the
/// repeating groups of the parent's context and then the subgroup itself,
/// whose block index is built from its own resolved names: a parent computing
/// a child's block index and the child resolving its own name reduce to the
/// same values.
pub proof fn lemma_repeating_blocks(g: Group, top: Option<Seq<SpecPoint>>, c: SpecCtx)
    ensures
        forall|k: int|
            0 <= k < spec_group(g, top, c).repeating_children.len() ==> indexed_by_own_block(
                (#[trigger] spec_group(g, top, c).repeating_children[k]).1,
                c.blocks,
            ),
    decreases g, 1nat, 0nat,
{
    let sg = spec_group(g, top, c);
    let root = root_points_spec(g, c.ident, c.prefix, c.blocks);
    let t = match top {
        Some(t) => t,
        None => root,
    };
    let n = g.groups@.len() as nat;
    let fixed = spec_fixed(g, n, t, c);
    let direct = spec_direct(g, n, t, c);
    lemma_direct_blocks(g, n, t, c);
    lemma_fixed_children_blocks(g, n, t, c);
    assert forall|k: int| 0 <= k < sg.repeating_children.len() implies indexed_by_own_block(
        (#[trigger] sg.repeating_children[k]).1,
        c.blocks,
    ) by {
        if k < direct.len() {
            assert(sg.repeating_children[k] == direct[k]);
        } else {
            assert(sg.repeating_children[k] == flatten_children(fixed)[k - direct.len()]);
        }
    }
}

proof fn lemma_direct_blocks(g: Group, n: nat, t: Seq<SpecPoint>, c: SpecCtx)
    ensures
        forall|k: int|
            0 <= k < spec_direct(g, n, t, c).len() ==> indexed_by_own_block(
                (#[trigger] spec_direct(g, n, t, c)[k]).1,
                c.blocks,
            ),
    decreases n,
{
    if n > 0 && n <= g.groups@.len() {
        let child = g.groups@[n - 1];
        let prev = spec_direct(g, (n - 1) as nat, t, c);
        lemma_direct_blocks(g, (n - 1) as nat, t, c);
        let rc = repeating_ctx(child, c);
        let cg = spec_group(child, Some(t), rc);
        lemma_group_point_blocks(child, Some(t), rc);
        assert(indexed_by_own_block(cg, c.blocks)) by {
            assert(rc.blocks == c.blocks.push(own_block(cg)));
            assert forall|i: int| 0 <= i < cg.points.len() implies (#[trigger] cg.points[i]).block_indices
                == c.blocks.push(own_block(cg)) by {
                assert(cg.points[i].block_indices == rc.blocks);
            }
        }
        let cur = spec_direct(g, n, t, c);
        assert forall|k: int| 0 <= k < cur.len() implies indexed_by_own_block(
            (#[trigger] cur[k]).1,
            c.blocks,
        ) by {
            if k < prev.len() {
                match child.count {
                    GroupCount::String(cn) => {
                        match crate::group::find_point(t, cn@) {
                            Some(p) => {
                                assert(cur[k] == prev[k]);
                            },
                            None => {},
                        }
                    },
                    GroupCount::Integer(_) => {},
                }
            } else {
                assert(cur[k].1 == cg);
            }
        }
    }
}

proof fn lemma_fixed_children_blocks(g: Group, n: nat, t: Seq<SpecPoint>, c: SpecCtx)
    ensures
        forall|k: int|
            0 <= k < flatten_children(spec_fixed(g, n, t, c)).len() ==> indexed_by_own_block(
                (#[trigger] flatten_children(spec_fixed(g, n, t, c))[k]).1,
                c.blocks,
            ),
    decreases g, 0nat, n,
{
    if n > 0 && n <= g.groups@.len() {
        let child = g.groups@[n - 1];
        let prev = spec_fixed(g, (n - 1) as nat, t, c);
        lemma_fixed_children_blocks(g, (n - 1) as nat, t, c);
        if is_fixed(child) {
            let cg = spec_group(child, Some(t), fixed_ctx(child, c));
            lemma_repeating_blocks(child, Some(t), fixed_ctx(child, c));
            assert(prev.push(cg).drop_last() =~= prev);
            let fc = flatten_children(prev.push(cg));
            assert forall|k: int| 0 <= k < fc.len() implies indexed_by_own_block(
                (#[trigger] fc[k]).1,
                c.blocks,
            ) by {
                if k < flatten_children(prev).len() {
                    assert(fc[k] == flatten_children(prev)[k]);
                } else {
                    assert(fc[k] == cg.repeating_children[k - flatten_children(prev).len()]);
                }
            }
        }
    }
}

/* Enums bubble up */

/// Every enum of `a` has a same-named enum in `b`.
pub open spec fn keys_within(a: Seq<SpecEnum>, b: Seq<SpecEnum>) -> bool {
    forall|i: int| 0 <= i < a.len() ==> has_key(b, enum_key(#[trigger] a[i]))
}

/// Each repeating subgroup's enums appear, by name, in its parent's enums,
/// all the way down.
pub open spec fn enums_bubble_up(g: SpecGroup) -> bool
    decreases g, 1nat, 0nat,
{
    children_bubble_up(g, g.repeating_children.len())
}

pub open spec fn children_bubble_up(g: SpecGroup, n: nat) -> bool
    decreases g, 0nat, n,
{
    if n == 0 || n > g.repeating_children.len() {
        true
    } else {
        &&& children_bubble_up(g, (n - 1) as nat)
        &&& keys_within(g.repeating_children[n - 1].1.enums, g.enums)
        &&& enums_bubble_up(g.repeating_children[n - 1].1)
    }
}

/// Every enum in `g`'s subtree has a same-named enum in `outer`.
pub open spec fn subtree_enums_within(g: SpecGroup, outer: Seq<SpecEnum>) -> bool
    decreases g, 1nat, 0nat,
{
    keys_within(g.enums, outer) && children_within(g, g.repeating_children.len(), outer)
}

pub open spec fn children_within(g: SpecGroup, n: nat, outer: Seq<SpecEnum>) -> bool
    decreases g, 0nat, n,
{
    if n == 0 || n > g.repeating_children.len() {
        true
    } else {
        children_within(g, (n - 1) as nat, outer) && subtree_enums_within(
            g.repeating_children[n - 1].1,
            outer,
        )
    }
}

proof fn lemma_children_enums_index(cs: Seq<(SpecPoint, SpecGroup)>, k: int, m: int)
    requires
        0 <= k < cs.len(),
        0 <= m < cs[k].1.enums.len(),
    ensures
        exists|i: int|
            0 <= i < children_enums(cs).len() && #[trigger] children_enums(cs)[i] == cs[k].1.enums[m],
    decreases cs.len(),
{
    let prev = cs.drop_last();
    if k < cs.len() - 1 {
        lemma_children_enums_index(prev, k, m);
        let i = choose|i: int|
            0 <= i < children_enums(prev).len() && #[trigger] children_enums(prev)[i]
                == prev[k].1.enums[m];
        assert(children_enums(cs)[i] == children_enums(prev)[i]);
    } else {
        let i = children_enums(prev).len() + m;
        assert(children_enums(cs)[i] == cs[k].1.enums[m]);
    }
}

proof fn lemma_children_bubble_from(g: SpecGroup, n: nat)
    requires
        n <= g.repeating_children.len(),
        forall|k: int|
            0 <= k < g.repeating_children.len() ==> keys_within(
                (#[trigger] g.repeating_children[k]).1.enums,
                g.enums,
            ) && enums_bubble_up(g.repeating_children[k].1),
    ensures
        children_bubble_up(g, n),
    decreases n,
{
    if n > 0 {
        lemma_children_bubble_from(g, (n - 1) as nat);
        assert(keys_within(g.repeating_children[n - 1].1.enums, g.enums));
    }
}

/// A resolved group collects the enums of every repeating subgroup, and so
/// on down its whole subtree.
pub proof fn lemma_group_enums_bubble_up(g: Group, top: Option<Seq<SpecPoint>>, c: SpecCtx)
    ensures
        enums_bubble_up(spec_group(g, top, c)),
    decreases g, 1nat, 0nat,
{
    let sg = spec_group(g, top, c);
    let root = root_points_spec(g, c.ident, c.prefix, c.blocks);
    let t = match top {
        Some(t) => t,
        None => root,
    };
    let n = g.groups@.len() as nat;
    let fixed = spec_fixed(g, n, t, c);
    let direct = spec_direct(g, n, t, c);
    let rc = sg.repeating_children;
    let es = own_enums(g.points@) + flatten_enums(fixed) + children_enums(rc);
    lemma_sort_dedup_enums(es);
    lemma_direct_bubble(g, n, t, c);
    lemma_fixed_bubble(g, n, t, c);
    assert forall|k: int| 0 <= k < rc.len() implies keys_within((#[trigger] rc[k]).1.enums, sg.enums)
        && enums_bubble_up(rc[k].1) by {
        if k < direct.len() {
            assert(rc[k] == direct[k]);
        } else {
            assert(rc[k] == flatten_children(fixed)[k - direct.len()]);
        }
        assert forall|m: int| 0 <= m < rc[k].1.enums.len() implies has_key(
            sg.enums,
            enum_key(#[trigger] rc[k].1.enums[m]),
        ) by {
            lemma_children_enums_index(rc, k, m);
            let i = choose|i: int|
                0 <= i < children_enums(rc).len() && #[trigger] children_enums(rc)[i]
                    == rc[k].1.enums[m];
            let off = own_enums(g.points@).len() + flatten_enums(fixed).len();
            assert(es[off + i] == rc[k].1.enums[m]);
        }
    }
    lemma_children_bubble_from(sg, rc.len());
}

proof fn lemma_direct_bubble(g: Group, n: nat, t: Seq<SpecPoint>, c: SpecCtx)
    ensures
        forall|k: int|
            0 <= k < spec_direct(g, n, t, c).len() ==> enums_bubble_up(
                (#[trigger] spec_direct(g, n, t, c)[k]).1,
            ),
    decreases g, 0nat, n,
{
    if n > 0 && n <= g.groups@.len() {
        let child = g.groups@[n - 1];
        let prev = spec_direct(g, (n - 1) as nat, t, c);
        lemma_direct_bubble(g, (n - 1) as nat, t, c);
        let cg = spec_group(child, Some(t), repeating_ctx(child, c));
        lemma_group_enums_bubble_up(child, Some(t), repeating_ctx(child, c));
        let cur = spec_direct(g, n, t, c);
        assert forall|k: int| 0 <= k < cur.len() implies enums_bubble_up((#[trigger] cur[k]).1) by {
            if k < prev.len() {
                match child.count {
                    GroupCount::String(cn) => {
                        match crate::group::find_point(t, cn@) {
                            Some(p) => {
                                assert(cur[k] == prev[k]);
                            },
                            None => {},
                        }
                    },
                    GroupCount::Integer(_) => {},
                }
            } else {
                assert(cur[k].1 == cg);
            }
        }
    }
}

proof fn lemma_fixed_bubble(g: Group, n: nat, t: Seq<SpecPoint>, c: SpecCtx)
    ensures
        forall|k: int|
            0 <= k < flatten_children(spec_fixed(g, n, t, c)).len() ==> enums_bubble_up(
                (#[trigger] flatten_children(spec_fixed(g, n, t, c))[k]).1,
            ),
    decreases g, 0nat, n,
{
    if n > 0 && n <= g.groups@.len() {
        let child = g.groups@[n - 1];
        let prev = spec_fixed(g, (n - 1) as nat, t, c);
        lemma_fixed_bubble(g, (n - 1) as nat, t, c);
        if is_fixed(child) {
            let cg = spec_group(child, Some(t), fixed_ctx(child, c));
            lemma_group_enums_bubble_up(child, Some(t), fixed_ctx(child, c));
            assert(prev.push(cg).drop_last() =~= prev);
            let fc = flatten_children(prev.push(cg));
            let rcg = cg.repeating_children;
            assert forall|k: int| 0 <= k < fc.len() implies enums_bubble_up((#[trigger] fc[k]).1) by {
                if k < flatten_children(prev).len() {
                    assert(fc[k] == flatten_children(prev)[k]);
                } else {
                    let j = k - flatten_children(prev).len();
                    assert(fc[k] == rcg[j]);
                    lemma_bubble_child(cg, rcg.len(), j);
                }
            }
        }
    }
}

proof fn lemma_bubble_child(g: SpecGroup, n: nat, j: int)
    requires
        children_bubble_up(g, n),
        n <= g.repeating_children.len(),
        0 <= j < n,
    ensures
        enums_bubble_up(g.repeating_children[j].1),
        keys_within(g.repeating_children[j].1.enums, g.enums),
    decreases n,
{
    if j < n - 1 {
        lemma_bubble_child(g, (n - 1) as nat, j);
    }
}

proof fn lemma_keys_within_transitive(a: Seq<SpecEnum>, b: Seq<SpecEnum>, c: Seq<SpecEnum>)
    requires
        keys_within(a, b),
        keys_within(b, c),
    ensures
        keys_within(a, c),
{
    assert forall|i: int| 0 <= i < a.len() implies has_key(c, enum_key(#[trigger] a[i])) by {
        let k = choose|k: int| 0 <= k < b.len() && enum_key(#[trigger] b[k]) == enum_key(a[i]);
        assert(has_key(c, enum_key(b[k])));
    }
}

proof fn lemma_subtree_within(g: SpecGroup, outer: Seq<SpecEnum>)
    requires
        enums_bubble_up(g),
        keys_within(g.enums, outer),
    ensures
        subtree_enums_within(g, outer),
    decreases g, 1nat, 0nat,
{
    lemma_children_within(g, g.repeating_children.len(), outer);
}

proof fn lemma_children_within(g: SpecGroup, n: nat, outer: Seq<SpecEnum>)
    requires
        enums_bubble_up(g),
        keys_within(g.enums, outer),
        n <= g.repeating_children.len(),
    ensures
        children_within(g, n, outer),
    decreases g, 0nat, n,
{
    if n > 0 {
        lemma_children_within(g, (n - 1) as nat, outer);
        let ch = g.repeating_children[n - 1].1;
        lemma_bubble_child(g, g.repeating_children.len(), n - 1);
        lemma_keys_within_transitive(ch.enums, g.enums, outer);
        lemma_subtree_within(ch, outer);
    }
}

/// A resolved group's enums already hold, by name, every enum of its whole
/// subtree: resolution bubbles them up through fixed subgroups and every
/// repeating subgroup.
pub proof fn lemma_group_collects_all_enums(g: Group, top: Option<Seq<SpecPoint>>, c: SpecCtx)
    ensures
        subtree_enums_within(spec_group(g, top, c), spec_group(g, top, c).enums),
{
    let sg = spec_group(g, top, c);
    lemma_group_enums_bubble_up(g, top, c);
    assert forall|i: int| 0 <= i < sg.enums.len() implies has_key(
        sg.enums,
        enum_key(#[trigger] sg.enums[i]),
    ) by {}
    lemma_subtree_within(sg, sg.enums);
}

/* Count points */

/// Every count point of `g`'s subtree has its schema name in `names`.
pub open spec fn counts_in_subtree(g: SpecGroup, names: Seq<Seq<char>>) -> bool
    decreases g, 1nat, 0nat,
{
    counts_in_children(g, g.repeating_children.len(), names)
}

pub open spec fn counts_in_children(g: SpecGroup, n: nat, names: Seq<Seq<char>>) -> bool
    decreases g, 0nat, n,
{
    if n == 0 || n > g.repeating_children.len() {
        true
    } else {
        &&& counts_in_children(g, (n - 1) as nat, names)
        &&& names.contains(g.repeating_children[n - 1].0.internal_name)
        &&& counts_in_subtree(g.repeating_children[n - 1].1, names)
    }
}

proof fn lemma_counts_mono(g: SpecGroup, x: Seq<Seq<char>>, y: Seq<Seq<char>>)
    requires
        counts_in_subtree(g, x),
        forall|s: Seq<char>| x.contains(s) ==> y.contains(s),
    ensures
        counts_in_subtree(g, y),
    decreases g, 1nat, 0nat,
{
    lemma_counts_children_mono(g, g.repeating_children.len(), x, y);
}

proof fn lemma_counts_children_mono(g: SpecGroup, n: nat, x: Seq<Seq<char>>, y: Seq<Seq<char>>)
    requires
        counts_in_children(g, n, x),
        forall|s: Seq<char>| x.contains(s) ==> y.contains(s),
    ensures
        counts_in_children(g, n, y),
    decreases g, 0nat, n,
{
    if n > 0 && n <= g.repeating_children.len() {
        lemma_counts_children_mono(g, (n - 1) as nat, x, y);
        lemma_counts_mono(g.repeating_children[n - 1].1, x, y);
    }
}

proof fn lemma_names_prefix(a: Seq<SpecPoint>, b: Seq<SpecPoint>)
    requires
        a.len() <= b.len(),
        b.subrange(0, a.len() as int) == a,
    ensures
        forall|s: Seq<char>| spec_names(a).contains(s) ==> spec_names(b).contains(s),
{
    assert forall|s: Seq<char>| spec_names(a).contains(s) implies spec_names(b).contains(s) by {
        let k = choose|k: int| 0 <= k < spec_names(a).len() && spec_names(a)[k] == s;
        assert(b[k] == a[k]);
        assert(spec_names(b)[k] == s);
    }
}

/// Collecting count points keeps what was collected before, never holds two
/// count points of the same schema name, and ends up holding the schema name
/// of every count point in the subtree.
pub proof fn lemma_collect_counts(g: SpecGroup, acc: Seq<SpecPoint>)
    ensures
        collect_counts(g, acc).len() >= acc.len(),
        collect_counts(g, acc).subrange(0, acc.len() as int) == acc,
        spec_names(acc).no_duplicates() ==> spec_names(collect_counts(g, acc)).no_duplicates(),
        counts_in_subtree(g, spec_names(collect_counts(g, acc))),
    decreases g, 1nat, 0nat,
{
    lemma_collect_children(g, g.repeating_children.len(), acc);
}

proof fn lemma_collect_children(g: SpecGroup, n: nat, acc: Seq<SpecPoint>)
    ensures
        collect_children(g, n, acc).len() >= acc.len(),
        collect_children(g, n, acc).subrange(0, acc.len() as int) == acc,
        spec_names(acc).no_duplicates() ==> spec_names(collect_children(g, n, acc)).no_duplicates(),
        counts_in_children(g, n, spec_names(collect_children(g, n, acc))),
    decreases g, 0nat, n,
{
    if n == 0 || n > g.repeating_children.len() {
        assert(acc.subrange(0, acc.len() as int) =~= acc);
    } else {
        let prev = collect_children(g, (n - 1) as nat, acc);
        lemma_collect_children(g, (n - 1) as nat, acc);
        let cp = g.repeating_children[n - 1].0;
        let child = g.repeating_children[n - 1].1;
        let added = if has_count(prev, cp.internal_name) {
            prev
        } else {
            prev.push(cp)
        };
        let r = collect_counts(child, added);
        lemma_collect_counts(child, added);
        assert(added.subrange(0, prev.len() as int) =~= prev);
        assert(r.subrange(0, acc.len() as int) =~= acc) by {
            assert(r.subrange(0, added.len() as int).subrange(0, acc.len() as int) =~= r.subrange(
                0,
                acc.len() as int,
            ));
            assert(added.subrange(0, acc.len() as int) =~= prev.subrange(0, acc.len() as int));
        }
        if spec_names(acc).no_duplicates() {
            if !has_count(prev, cp.internal_name) {
                assert(spec_names(added) =~= spec_names(prev).push(cp.internal_name));
            }
        }
        lemma_names_prefix(prev, added);
        lemma_names_prefix(added, r);
        assert(spec_names(added).contains(cp.internal_name)) by {
            if !has_count(prev, cp.internal_name) {
                assert(spec_names(added)[prev.len() as int] == cp.internal_name);
            }
        }
        lemma_counts_children_mono(g, (n - 1) as nat, spec_names(prev), spec_names(r));
    }
}

/// Every count point of `g`'s subtree is one of the points `t`.
pub open spec fn counts_from(g: SpecGroup, t: Seq<SpecPoint>) -> bool
    decreases g, 1nat, 0nat,
{
    counts_from_children(g, g.repeating_children.len(), t)
}

pub open spec fn counts_from_children(g: SpecGroup, n: nat, t: Seq<SpecPoint>) -> bool
    decreases g, 0nat, n,
{
    if n == 0 || n > g.repeating_children.len() {
        true
    } else {
        &&& counts_from_children(g, (n - 1) as nat, t)
        &&& t.contains(g.repeating_children[n - 1].0)
        &&& counts_from(g.repeating_children[n - 1].1, t)
    }
}

proof fn lemma_counts_from_each(g: SpecGroup, n: nat, t: Seq<SpecPoint>)
    requires
        n <= g.repeating_children.len(),
        forall|k: int|
            0 <= k < g.repeating_children.len() ==> t.contains(
                (#[trigger] g.repeating_children[k]).0,
            ) && counts_from(g.repeating_children[k].1, t),
    ensures
        counts_from_children(g, n, t),
    decreases n,
{
    if n > 0 {
        lemma_counts_from_each(g, (n - 1) as nat, t);
        assert(t.contains(g.repeating_children[n - 1].0));
    }
}

proof fn lemma_counts_from_child(g: SpecGroup, n: nat, t: Seq<SpecPoint>, j: int)
    requires
        counts_from_children(g, n, t),
        n <= g.repeating_children.len(),
        0 <= j < n,
    ensures
        t.contains(g.repeating_children[j].0),
        counts_from(g.repeating_children[j].1, t),
    decreases n,
{
    if j < n - 1 {
        lemma_counts_from_child(g, (n - 1) as nat, t, j);
    }
}

proof fn lemma_find_point_in(t: Seq<SpecPoint>, name: Seq<char>)
    ensures
        find_point(t, name) matches Some(p) ==> t.contains(p),
    decreases t.len(),
{
    if t.len() > 0 && t[0].internal_name != name {
        lemma_find_point_in(t.drop_first(), name);
        if let Some(p) = find_point(t.drop_first(), name) {
            let k = choose|k: int| 0 <= k < t.drop_first().len() && t.drop_first()[k] == p;
            assert(t[k + 1] == p);
        }
    } else if t.len() > 0 {
        assert(t[0] == find_point(t, name)->0);
    }
}

/// Every repeating subgroup in a resolved group's subtree, found directly or
/// inside a fixed subgroup, is counted by one of the model's top-level points
/// (`top`, or the group's own points when it is the top-level group): a count
/// is a field of the model, shared by every array that names it.
pub proof fn lemma_counts_are_top_level(g: Group, top: Option<Seq<SpecPoint>>, c: SpecCtx)
    ensures
        counts_from(
            spec_group(g, top, c),
            match top {
                Some(t) => t,
                None => root_points_spec(g, c.ident, c.prefix, c.blocks),
            },
        ),
    decreases g, 1nat, 0nat,
{
    let sg = spec_group(g, top, c);
    let root = root_points_spec(g, c.ident, c.prefix, c.blocks);
    let t = match top {
        Some(t) => t,
        None => root,
    };
    let n = g.groups@.len() as nat;
    let fixed = spec_fixed(g, n, t, c);
    let direct = spec_direct(g, n, t, c);
    let rc = sg.repeating_children;
    lemma_direct_counts(g, n, t, c);
    lemma_fixed_counts(g, n, t, c);
    assert forall|k: int| 0 <= k < rc.len() implies t.contains((#[trigger] rc[k]).0) && counts_from(
        rc[k].1,
        t,
    ) by {
        if k < direct.len() {
            assert(rc[k] == direct[k]);
        } else {
            assert(rc[k] == flatten_children(fixed)[k - direct.len()]);
        }
    }
    lemma_counts_from_each(sg, rc.len(), t);
}

proof fn lemma_direct_counts(g: Group, n: nat, t: Seq<SpecPoint>, c: SpecCtx)
    ensures
        forall|k: int|
            0 <= k < spec_direct(g, n, t, c).len() ==> t.contains(
                (#[trigger] spec_direct(g, n, t, c)[k]).0,
            ) && counts_from(spec_direct(g, n, t, c)[k].1, t),
    decreases g, 0nat, n,
{
    if n > 0 && n <= g.groups@.len() {
        let child = g.groups@[n - 1];
        let prev = spec_direct(g, (n - 1) as nat, t, c);
        lemma_direct_counts(g, (n - 1) as nat, t, c);
        let cg = spec_group(child, Some(t), repeating_ctx(child, c));
        lemma_counts_are_top_level(child, Some(t), repeating_ctx(child, c));
        let cur = spec_direct(g, n, t, c);
        assert forall|k: int| 0 <= k < cur.len() implies t.contains((#[trigger] cur[k]).0)
            && counts_from(cur[k].1, t) by {
            match child.count {
                GroupCount::String(cn) => {
                    lemma_find_point_in(t, cn@);
                    match find_point(t, cn@) {
                        Some(p) => {
                            if k < prev.len() {
                                assert(cur[k] == prev[k]);
                            } else {
                                assert(cur[k] == (p, cg));
                            }
                        },
                        None => {},
                    }
                },
                GroupCount::Integer(_) => {},
            }
        }
    }
}

proof fn lemma_fixed_counts(g: Group, n: nat, t: Seq<SpecPoint>, c: SpecCtx)
    ensures
        forall|k: int|
            0 <= k < flatten_children(spec_fixed(g, n, t, c)).len() ==> t.contains(
                (#[trigger] flatten_children(spec_fixed(g, n, t, c))[k]).0,
            ) && counts_from(flatten_children(spec_fixed(g, n, t, c))[k].1, t),
    decreases g, 0nat, n,
{
    if n > 0 && n <= g.groups@.len() {
        let child = g.groups@[n - 1];
        let prev = spec_fixed(g, (n - 1) as nat, t, c);
        lemma_fixed_counts(g, (n - 1) as nat, t, c);
        if is_fixed(child) {
            let cg = spec_group(child, Some(t), fixed_ctx(child, c));
            lemma_counts_are_top_level(child, Some(t), fixed_ctx(child, c));
            assert(prev.push(cg).drop_last() =~= prev);
            let fc = flatten_children(prev.push(cg));
            let rcg = cg.repeating_children;
            assert forall|k: int| 0 <= k < fc.len() implies t.contains((#[trigger] fc[k]).0)
                && counts_from(fc[k].1, t) by {
                if k < flatten_children(prev).len() {
                    assert(fc[k] == flatten_children(prev)[k]);
                } else {
                    let j = k - flatten_children(prev).len();
                    assert(fc[k] == rcg[j]);
                    lemma_counts_from_child(cg, rcg.len(), t, j);
                }
            }
        }
    }
}

/* Listed points */

/// The schema names of the points a resolved `g` lists: its own points in
/// schema order, then those of each fixed subgroup in turn, recursively.
/// Repeating subgroups' points are not among them.
pub open spec fn flat_point_names(g: Group) -> Seq<Seq<char>>
    decreases g, 1nat, 0nat,
{
    point_names(g.points@) + fixed_flat_names(g, g.groups@.len() as nat)
}

pub open spec fn fixed_flat_names(g: Group, n: nat) -> Seq<Seq<char>>
    decreases g, 0nat, n,
{
    if n == 0 || n > g.groups@.len() {
        Seq::empty()
    } else if is_fixed(g.groups@[n - 1]) {
        fixed_flat_names(g, (n - 1) as nat) + flat_point_names(g.groups@[n - 1])
    } else {
        fixed_flat_names(g, (n - 1) as nat)
    }
}

/// A resolved group lists its own schema points, then those of each fixed
/// subgroup in schema order, recursively, and no others.
pub proof fn lemma_group_point_names(g: Group, top: Option<Seq<SpecPoint>>, c: SpecCtx)
    ensures
        spec_names(spec_group(g, top, c).points) == flat_point_names(g),
    decreases g, 1nat, 0nat,
{
    let root = root_points_spec(g, c.ident, c.prefix, c.blocks);
    let t = match top {
        Some(t) => t,
        None => root,
    };
    let fixed = spec_fixed(g, g.groups@.len() as nat, t, c);
    lemma_fixed_point_names(g, g.groups@.len() as nat, t, c);
    assert(spec_names(root) =~= point_names(g.points@));
    assert(spec_names(root + flatten_points(fixed)) =~= spec_names(root) + spec_names(
        flatten_points(fixed),
    ));
}

proof fn lemma_fixed_point_names(g: Group, n: nat, t: Seq<SpecPoint>, c: SpecCtx)
    ensures
        spec_names(flatten_points(spec_fixed(g, n, t, c))) == fixed_flat_names(g, n),
    decreases g, 0nat, n,
{
    if n == 0 || n > g.groups@.len() {
        assert(spec_names(flatten_points(spec_fixed(g, n, t, c))) =~= Seq::<Seq<char>>::empty());
    } else {
        let child = g.groups@[n - 1];
        lemma_fixed_point_names(g, (n - 1) as nat, t, c);
        if is_fixed(child) {
            let prev = spec_fixed(g, (n - 1) as nat, t, c);
            let cg = spec_group(child, Some(t), fixed_ctx(child, c));
            lemma_group_point_names(child, Some(t), fixed_ctx(child, c));
            assert(prev.push(cg).drop_last() =~= prev);
            assert(spec_names(flatten_points(prev) + cg.points) =~= spec_names(flatten_points(prev))
                + spec_names(cg.points));
        }
    }
}

/* String points */

/// A resolved point that holds a string.
pub open spec fn is_string_point(p: SpecPoint) -> bool {
    p.point_type.cast_from_c == Some(CastFromC::String)
}

/// `g` or a group below it through repeating subgroups lists a string point.
pub open spec fn has_string_point(g: SpecGroup) -> bool
    decreases g, 1nat, 0nat,
{
    some_string(g.points) || children_have_string(g, g.repeating_children.len())
}

pub open spec fn children_have_string(g: SpecGroup, n: nat) -> bool
    decreases g, 0nat, n,
{
    if n == 0 || n > g.repeating_children.len() {
        false
    } else {
        children_have_string(g, (n - 1) as nat) || has_string_point(g.repeating_children[n - 1].1)
    }
}

pub open spec fn some_string(ps: Seq<SpecPoint>) -> bool {
    exists|i: int| 0 <= i < ps.len() && is_string_point(#[trigger] ps[i])
}

pub open spec fn some_string_child(cs: Seq<(SpecPoint, SpecGroup)>) -> bool {
    exists|k: int| 0 <= k < cs.len() && has_string_point((#[trigger] cs[k]).1)
}

proof fn lemma_some_string_concat(a: Seq<SpecPoint>, b: Seq<SpecPoint>)
    ensures
        some_string(a + b) == (some_string(a) || some_string(b)),
{
    if some_string(a + b) {
        let i = choose|i: int| 0 <= i < (a + b).len() && is_string_point(#[trigger] (a + b)[i]);
        if i < a.len() {
            assert(is_string_point(a[i]));
        } else {
            assert(is_string_point(b[i - a.len()]));
        }
    }
    if some_string(a) {
        let i = choose|i: int| 0 <= i < a.len() && is_string_point(#[trigger] a[i]);
        assert(is_string_point((a + b)[i]));
    }
    if some_string(b) {
        let i = choose|i: int| 0 <= i < b.len() && is_string_point(#[trigger] b[i]);
        assert(is_string_point((a + b)[a.len() + i]));
    }
}

proof fn lemma_some_child_concat(a: Seq<(SpecPoint, SpecGroup)>, b: Seq<(SpecPoint, SpecGroup)>)
    ensures
        some_string_child(a + b) == (some_string_child(a) || some_string_child(b)),
{
    if some_string_child(a + b) {
        let i = choose|i: int| 0 <= i < (a + b).len() && has_string_point((#[trigger] (a + b)[i]).1);
        if i < a.len() {
            assert(has_string_point(a[i].1));
        } else {
            assert(has_string_point(b[i - a.len()].1));
        }
    }
    if some_string_child(a) {
        let i = choose|i: int| 0 <= i < a.len() && has_string_point((#[trigger] a[i]).1);
        assert(has_string_point((a + b)[i].1));
    }
    if some_string_child(b) {
        let i = choose|i: int| 0 <= i < b.len() && has_string_point((#[trigger] b[i]).1);
        assert(has_string_point((a + b)[a.len() + i].1));
    }
}

proof fn lemma_children_have_string(g: SpecGroup, n: nat)
    requires
        n <= g.repeating_children.len(),
    ensures
        children_have_string(g, n) == some_string_child(g.repeating_children.take(n as int)),
    decreases n,
{
    if n > 0 {
        lemma_children_have_string(g, (n - 1) as nat);
        let cs = g.repeating_children.take(n as int);
        assert(cs =~= g.repeating_children.take(n - 1) + seq![g.repeating_children[n - 1]]);
        lemma_some_child_concat(g.repeating_children.take(n - 1), seq![g.repeating_children[n - 1]]);
        if has_string_point(g.repeating_children[n - 1].1) {
            assert(has_string_point(seq![g.repeating_children[n - 1]][0].1));
        }
    } else {
        assert(!some_string_child(g.repeating_children.take(0)));
    }
}

proof fn lemma_has_string_point(g: SpecGroup)
    ensures
        has_string_point(g) == (some_string(g.points) || some_string_child(g.repeating_children)),
{
    lemma_children_have_string(g, g.repeating_children.len());
    assert(g.repeating_children.take(g.repeating_children.len() as int) =~= g.repeating_children);
}

/// Resolution meets a string point exactly when the resolved group, or a
/// group below it through repeating subgroups, lists one: so the string
/// feature is noted exactly when the resolved tree holds a string point.
pub proof fn lemma_group_strings(g: Group, top: Option<Seq<SpecPoint>>, c: SpecCtx)
    ensures
        ({
            let t = match top {
                Some(t) => t,
                None => root_points_spec(g, c.ident, c.prefix, c.blocks),
            };
            group_uses_strings(g, spec_names(t)) == has_string_point(spec_group(g, top, c))
        }),
    decreases g, 1nat, 0nat,
{
    let sg = spec_group(g, top, c);
    let root = root_points_spec(g, c.ident, c.prefix, c.blocks);
    let t = match top {
        Some(t) => t,
        None => root,
    };
    let names = spec_names(t);
    let n = g.groups@.len() as nat;
    let fixed = spec_fixed(g, n, t, c);
    let direct = spec_direct(g, n, t, c);
    lemma_fixed_strings(g, n, t, c);
    lemma_direct_strings(g, n, t, c);
    crate::schema::lemma_children_use_split(g, n, names);
    lemma_has_string_point(sg);
    lemma_some_string_concat(root, flatten_points(fixed));
    lemma_some_child_concat(direct, flatten_children(fixed));
    assert(some_string(root) == own_uses_strings(g.points@)) by {
        if some_string(root) {
            let i = choose|i: int| 0 <= i < root.len() && is_string_point(#[trigger] root[i]);
            assert(g.points@[i].type_ == PointType::String);
        }
        if own_uses_strings(g.points@) {
            let i = choose|i: int| 0 <= i < g.points@.len() && (#[trigger] g.points@[i]).type_ == PointType::String;
            assert(is_string_point(root[i]));
        }
    }
}

proof fn lemma_fixed_strings(g: Group, n: nat, t: Seq<SpecPoint>, c: SpecCtx)
    ensures
        (some_string(flatten_points(spec_fixed(g, n, t, c))) || some_string_child(
            flatten_children(spec_fixed(g, n, t, c)),
        )) == fixed_use(g, n, spec_names(t)),
    decreases g, 0nat, n,
{
    if n == 0 || n > g.groups@.len() {
    } else {
        let child = g.groups@[n - 1];
        let prev = spec_fixed(g, (n - 1) as nat, t, c);
        lemma_fixed_strings(g, (n - 1) as nat, t, c);
        if is_fixed(child) {
            let cg = spec_group(child, Some(t), fixed_ctx(child, c));
            lemma_group_strings(child, Some(t), fixed_ctx(child, c));
            lemma_has_string_point(cg);
            assert(prev.push(cg).drop_last() =~= prev);
            lemma_some_string_concat(flatten_points(prev), cg.points);
            lemma_some_child_concat(flatten_children(prev), cg.repeating_children);
        }
    }
}

proof fn lemma_direct_strings(g: Group, n: nat, t: Seq<SpecPoint>, c: SpecCtx)
    ensures
        some_string_child(spec_direct(g, n, t, c)) == found_use(g, n, spec_names(t)),
    decreases g, 0nat, n,
{
    if n == 0 || n > g.groups@.len() {
    } else {
        let child = g.groups@[n - 1];
        let prev = spec_direct(g, (n - 1) as nat, t, c);
        lemma_direct_strings(g, (n - 1) as nat, t, c);
        match child.count {
            GroupCount::String(cn) => {
                crate::group::lemma_find_point_contains(t, cn@);
                match find_point(t, cn@) {
                    Some(p) => {
                        let cg = spec_group(child, Some(t), repeating_ctx(child, c));
                        lemma_group_strings(child, Some(t), repeating_ctx(child, c));
                        let cur = spec_direct(g, n, t, c);
                        assert(cur =~= prev + seq![(p, cg)]);
                        lemma_some_child_concat(prev, seq![(p, cg)]);
                        if has_string_point(cg) {
                            assert(has_string_point(seq![(p, cg)][0].1));
                        }
                    },
                    None => {},
                }
            },
            GroupCount::Integer(_) => {},
        }
    }
}

/* Writability */

/// `g` or a group below it through repeating subgroups lists a read-write point.
pub open spec fn has_rw_point(g: SpecGroup) -> bool
    decreases g, 1nat, 0nat,
{
    (exists|i: int| 0 <= i < g.points.len() && (#[trigger] g.points[i]).access == PointAccess::Rw)
        || children_have_rw(g, g.repeating_children.len())
}

pub open spec fn children_have_rw(g: SpecGroup, n: nat) -> bool
    decreases g, 0nat, n,
{
    if n == 0 || n > g.repeating_children.len() {
        false
    } else {
        children_have_rw(g, (n - 1) as nat) || has_rw_point(g.repeating_children[n - 1].1)
    }
}

/// `g` and every group below it through repeating subgroups is writable
/// exactly when it or a group below it lists a read-write point.
pub open spec fn writable_exact(g: SpecGroup) -> bool
    decreases g, 1nat, 0nat,
{
    g.writable == has_rw_point(g) && children_writable_exact(g, g.repeating_children.len())
}

pub open spec fn children_writable_exact(g: SpecGroup, n: nat) -> bool
    decreases g, 0nat, n,
{
    if n == 0 || n > g.repeating_children.len() {
        true
    } else {
        children_writable_exact(g, (n - 1) as nat) && writable_exact(g.repeating_children[n - 1].1)
    }
}

proof fn lemma_children_writable_from(g: SpecGroup, n: nat)
    requires
        n <= g.repeating_children.len(),
        forall|k: int| 0 <= k < g.repeating_children.len() ==> writable_exact(#[trigger] g.repeating_children[k].1),
    ensures
        children_writable_exact(g, n),
        children_have_rw(g, n) == exists|k: int| 0 <= k < n && (#[trigger] g.repeating_children[k]).1.writable,
    decreases n,
{
    if n > 0 {
        lemma_children_writable_from(g, (n - 1) as nat);
        let last = g.repeating_children[n - 1];
        assert(writable_exact(last.1));
        if exists|k: int| 0 <= k < n && (#[trigger] g.repeating_children[k]).1.writable {
            let k = choose|k: int| 0 <= k < n && (#[trigger] g.repeating_children[k]).1.writable;
            assert(writable_exact(g.repeating_children[k].1));
        }
    }
}

proof fn lemma_writable_child(g: SpecGroup, n: nat, j: int)
    requires
        children_writable_exact(g, n),
        n <= g.repeating_children.len(),
        0 <= j < n,
    ensures
        writable_exact(g.repeating_children[j].1),
    decreases n,
{
    if j < n - 1 {
        lemma_writable_child(g, (n - 1) as nat, j);
    }
}

/// A resolved group is writable exactly when it or a group reachable from it
/// through repeating subgroups (at any depth) lists a read-write point; so is
/// every group below it.
pub proof fn lemma_group_writable(g: Group, top: Option<Seq<SpecPoint>>, c: SpecCtx)
    ensures
        writable_exact(spec_group(g, top, c)),
    decreases g, 1nat, 0nat,
{
    let sg = spec_group(g, top, c);
    let root = root_points_spec(g, c.ident, c.prefix, c.blocks);
    let t = match top {
        Some(t) => t,
        None => root,
    };
    let n = g.groups@.len() as nat;
    let fixed = spec_fixed(g, n, t, c);
    let direct = spec_direct(g, n, t, c);
    let rc = sg.repeating_children;
    lemma_direct_writable(g, n, t, c);
    lemma_fixed_writable(g, n, t, c);
    assert forall|k: int| 0 <= k < rc.len() implies writable_exact(#[trigger] rc[k].1) by {
        if k < direct.len() {
            assert(rc[k] == direct[k]);
        } else {
            assert(rc[k] == flatten_children(fixed)[k - direct.len()]);
        }
    }
    lemma_children_writable_from(sg, rc.len());
}

proof fn lemma_direct_writable(g: Group, n: nat, t: Seq<SpecPoint>, c: SpecCtx)
    ensures
        forall|k: int|
            0 <= k < spec_direct(g, n, t, c).len() ==> writable_exact(
                (#[trigger] spec_direct(g, n, t, c)[k]).1,
            ),
    decreases g, 0nat, n,
{
    if n > 0 && n <= g.groups@.len() {
        let child = g.groups@[n - 1];
        let prev = spec_direct(g, (n - 1) as nat, t, c);
        lemma_direct_writable(g, (n - 1) as nat, t, c);
        let cg = spec_group(child, Some(t), repeating_ctx(child, c));
        lemma_group_writable(child, Some(t), repeating_ctx(child, c));
        let cur = spec_direct(g, n, t, c);
        assert forall|k: int| 0 <= k < cur.len() implies writable_exact((#[trigger] cur[k]).1) by {
            if k < prev.len() {
                match child.count {
                    GroupCount::String(cn) => {
                        match find_point(t, cn@) {
                            Some(p) => {
                                assert(cur[k] == prev[k]);
                            },
                            None => {},
                        }
                    },
                    GroupCount::Integer(_) => {},
                }
            } else {
                assert(cur[k].1 == cg);
            }
        }
    }
}

proof fn lemma_fixed_writable(g: Group, n: nat, t: Seq<SpecPoint>, c: SpecCtx)
    ensures
        forall|k: int|
            0 <= k < flatten_children(spec_fixed(g, n, t, c)).len() ==> writable_exact(
                (#[trigger] flatten_children(spec_fixed(g, n, t, c))[k]).1,
            ),
    decreases g, 0nat, n,
{
    if n > 0 && n <= g.groups@.len() {
        let child = g.groups@[n - 1];
        let prev = spec_fixed(g, (n - 1) as nat, t, c);
        lemma_fixed_writable(g, (n - 1) as nat, t, c);
        if is_fixed(child) {
            let cg = spec_group(child, Some(t), fixed_ctx(child, c));
            lemma_group_writable(child, Some(t), fixed_ctx(child, c));
            assert(prev.push(cg).drop_last() =~= prev);
            let fc = flatten_children(prev.push(cg));
            let rcg = cg.repeating_children;
            assert forall|k: int| 0 <= k < fc.len() implies writable_exact((#[trigger] fc[k]).1) by {
                if k < flatten_children(prev).len() {
                    assert(fc[k] == flatten_children(prev)[k]);
                } else {
                    let j = k - flatten_children(prev).len();
                    assert(fc[k] == rcg[j]);
                    lemma_writable_child(cg, rcg.len(), j);
                }
            }
        }
    }
}

/// The count points of `g`'s subtree, in the order collection meets them:
/// for each repeating subgroup, its count point, then those below it.
pub open spec fn subtree_counts(g: SpecGroup) -> Seq<SpecPoint>
    decreases g, 1nat, 0nat,
{
    children_counts(g, g.repeating_children.len())
}

pub open spec fn children_counts(g: SpecGroup, n: nat) -> Seq<SpecPoint>
    decreases g, 0nat, n,
{
    if n == 0 || n > g.repeating_children.len() {
        Seq::empty()
    } else {
        children_counts(g, (n - 1) as nat) + seq![g.repeating_children[n - 1].0] + subtree_counts(
            g.repeating_children[n - 1].1,
        )
    }
}

/// Collection adds nothing but count points of the subtree.
pub proof fn lemma_collect_counts_from_subtree(g: SpecGroup, acc: Seq<SpecPoint>)
    ensures
        forall|i: int|
            acc.len() <= i < collect_counts(g, acc).len() ==> subtree_counts(g).contains(
                #[trigger] collect_counts(g, acc)[i],
            ),
    decreases g, 1nat, 0nat,
{
    let n = g.repeating_children.len();
    lemma_collect_children_from_subtree(g, n, acc);
    assert(collect_counts(g, acc) == collect_children(g, n, acc));
    assert(subtree_counts(g) == children_counts(g, n));
    assert forall|i: int| acc.len() <= i < collect_counts(g, acc).len() implies subtree_counts(g).contains(
        #[trigger] collect_counts(g, acc)[i],
    ) by {
        assert(children_counts(g, n).contains(collect_children(g, n, acc)[i]));
    }
}

proof fn lemma_collect_children_from_subtree(g: SpecGroup, n: nat, acc: Seq<SpecPoint>)
    ensures
        forall|i: int|
            acc.len() <= i < collect_children(g, n, acc).len() ==> children_counts(g, n).contains(
                #[trigger] collect_children(g, n, acc)[i],
            ),
    decreases g, 0nat, n,
{
    if n > 0 && n <= g.repeating_children.len() {
        let prev = collect_children(g, (n - 1) as nat, acc);
        lemma_collect_children_from_subtree(g, (n - 1) as nat, acc);
        lemma_collect_children(g, (n - 1) as nat, acc);
        let cp = g.repeating_children[n - 1].0;
        let child = g.repeating_children[n - 1].1;
        let added = if has_count(prev, cp.internal_name) {
            prev
        } else {
            prev.push(cp)
        };
        let r = collect_counts(child, added);
        lemma_collect_counts(child, added);
        lemma_collect_counts_from_subtree(child, added);
        let before = children_counts(g, (n - 1) as nat);
        let all = children_counts(g, n);
        assert(all == before + seq![cp] + subtree_counts(child));
        assert forall|i: int| acc.len() <= i < r.len() implies all.contains(#[trigger] r[i]) by {
            if i < prev.len() {
                assert(r[i] == r.subrange(0, added.len() as int)[i]);
                assert(r[i] == prev[i]);
                assert(before.contains(prev[i]));
                let k = choose|k: int| 0 <= k < before.len() && before[k] == prev[i];
                assert(all[k] == before[k]);
            } else if i < added.len() {
                assert(r[i] == r.subrange(0, added.len() as int)[i]);
                assert(r[i] == cp);
                assert(all[before.len() as int] == cp);
            } else {
                assert(subtree_counts(child).contains(r[i]));
                let k = choose|k: int| 0 <= k < subtree_counts(child).len() && subtree_counts(child)[k] == r[i];
                assert(all[before.len() + 1 + k] == subtree_counts(child)[k]);
            }
        }
    }
}

/* Renaming changes names only */

/// The name every name is blanked to when names are set aside.
pub open spec fn blank_name() -> SpecName {
    SpecName { snake_case: Seq::empty(), pascal_case: Seq::empty() }
}

/// `g` with every name in its subtree (of groups, points, count points and
/// enums) blanked: what is left once names are set aside.
pub open spec fn strip_names(g: SpecGroup) -> SpecGroup
    decreases g,
{
    SpecGroup {
        name: blank_name(),
        points: g.points.map_values(|p: SpecPoint| with_name(p, blank_name())),
        enums: g.enums.map_values(|e: SpecEnum| SpecEnum { name: blank_name(), ..e }),
        repeating_children: strip_children(g.repeating_children),
        ..g
    }
}

pub open spec fn strip_children(cs: Seq<(SpecPoint, SpecGroup)>) -> Seq<(SpecPoint, SpecGroup)>
    decreases cs,
{
    if cs.len() == 0 {
        Seq::empty()
    } else {
        strip_children(cs.drop_last()).push(
            (with_name(cs.last().0, blank_name()), strip_names(cs.last().1)),
        )
    }
}

proof fn lemma_strip_renamed(
    g: SpecGroup,
    pn: Seq<SpecName>,
    gn: Seq<SpecName>,
    top: Seq<SpecPoint>,
    te: Seq<SpecEnum>,
    en: Seq<SpecName>,
)
    ensures
        strip_names(renamed_group(g, pn, gn, top, te, en)) == strip_names(g),
    decreases g,
{
    let r = renamed_group(g, pn, gn, top, te, en);
    lemma_strip_renamed_children(
        g.repeating_children,
        pn.skip(g.points.len() as int),
        gn.skip(1),
        top,
        te,
        en,
    );
    assert(strip_names(r).points =~= strip_names(g).points);
    assert(strip_names(r).enums =~= strip_names(g).enums) by {
        assert forall|i: int| 0 <= i < g.enums.len() implies strip_names(r).enums[i] == strip_names(
            g,
        ).enums[i] by {
            let e = g.enums[i];
            match first_key_index(te, enum_key(e)) {
                Some(k) => {},
                None => {},
            }
        }
    }
}

proof fn lemma_strip_renamed_children(
    cs: Seq<(SpecPoint, SpecGroup)>,
    pn: Seq<SpecName>,
    gn: Seq<SpecName>,
    top: Seq<SpecPoint>,
    te: Seq<SpecEnum>,
    en: Seq<SpecName>,
)
    ensures
        strip_children(renamed_children(cs, pn, gn, top, te, en)) == strip_children(cs),
    decreases cs,
{
    if cs.len() > 0 {
        let prev = cs.drop_last();
        lemma_strip_renamed_children(prev, pn, gn, top, te, en);
        lemma_strip_renamed(
            cs.last().1,
            pn.skip(children_point_names(prev).len() as int),
            gn.skip(children_group_names(prev).len() as int),
            top,
            te,
            en,
        );
        let rc = renamed_children(cs, pn, gn, top, te, en);
        assert(rc.drop_last() =~= renamed_children(prev, pn, gn, top, te, en));
        let cp = cs.last().0;
        assert(with_name(renamed_count(cp, top), blank_name()) == with_name(cp, blank_name()));
    }
}

/// Deduplicating a model's names changes nothing but names: with every name
/// set aside, the renamed model group is the group that resolution gave.
pub proof fn lemma_named_group_changes_only_names(g: SpecGroup)
    ensures
        strip_names(named_group(g)) == strip_names(g),
{
    let pn = deduplicated(point_registrations(g));
    let gn = deduplicated(group_registrations(g));
    let en = deduplicated(enum_registrations(g));
    lemma_strip_renamed(g, pn, gn, renamed_points(g.points, pn), g.enums, en);
}

/* The order count points are collected in */

/// `acc` followed by each point of `s`, in order, whose schema name is not
/// already held: the first occurrences of each new schema name.
pub open spec fn add_new(acc: Seq<SpecPoint>, s: Seq<SpecPoint>) -> Seq<SpecPoint>
    decreases s.len(),
{
    if s.len() == 0 {
        acc
    } else {
        let prev = add_new(acc, s.drop_last());
        if has_count(prev, s.last().internal_name) {
            prev
        } else {
            prev.push(s.last())
        }
    }
}

proof fn lemma_add_new_concat(acc: Seq<SpecPoint>, a: Seq<SpecPoint>, b: Seq<SpecPoint>)
    ensures
        add_new(acc, a + b) == add_new(add_new(acc, a), b),
    decreases b.len(),
{
    if b.len() == 0 {
        assert(a + b =~= a);
    } else {
        assert((a + b).drop_last() =~= a + b.drop_last());
        lemma_add_new_concat(acc, a, b.drop_last());
    }
}

/// Collecting count points keeps, after what was held before, the first
/// point of each new schema name in the pre-order walk of the subtree's
/// count points.
pub proof fn lemma_collect_counts_first_occurrences(g: SpecGroup, acc: Seq<SpecPoint>)
    ensures
        collect_counts(g, acc) == add_new(acc, subtree_counts(g)),
    decreases g, 1nat, 0nat,
{
    lemma_collect_children_first(g, g.repeating_children.len(), acc);
}

proof fn lemma_collect_children_first(g: SpecGroup, n: nat, acc: Seq<SpecPoint>)
    ensures
        collect_children(g, n, acc) == add_new(acc, children_counts(g, n)),
    decreases g, 0nat, n,
{
    if n > 0 && n <= g.repeating_children.len() {
        let cp = g.repeating_children[n - 1].0;
        let child = g.repeating_children[n - 1].1;
        let before = children_counts(g, (n - 1) as nat);
        lemma_collect_children_first(g, (n - 1) as nat, acc);
        let prev = add_new(acc, before);
        let added = add_new(prev, seq![cp]);
        assert(seq![cp].drop_last() =~= Seq::<SpecPoint>::empty());
        assert(add_new(prev, seq![cp].drop_last()) == prev);
        assert(seq![cp].last() == cp);
        assert(added == if has_count(prev, cp.internal_name) {
            prev
        } else {
            prev.push(cp)
        });
        assert(children_counts(g, n) == before + seq![cp] + subtree_counts(child));
        lemma_collect_counts_first_occurrences(child, added);
        lemma_add_new_concat(acc, before, seq![cp]);
        lemma_add_new_concat(acc, before + seq![cp], subtree_counts(child));
    }
}

/// The count points of a resolved model are the first point of each schema
/// name in the pre-order walk of its count points.
pub proof fn lemma_model_count_points(g: SpecGroup)
    ensures
        collect_counts(g, Seq::empty()) == add_new(Seq::empty(), subtree_counts(g)),
{
    lemma_collect_counts_first_occurrences(g, Seq::empty());
}

/* How many enums a group holds */

/// One of `ps` is an enumerated point (with symbols) whose name has the
/// snake_case spelling `k`.
pub open spec fn own_enum_key(ps: Seq<Point>, k: Seq<char>) -> bool {
    exists|i: int| 0 <= i < ps.len() && is_enum_point(#[trigger] ps[i]) && snake_case_of(ps[i].name@) == k
}

/// Resolution of `g` visits an enumerated point whose name has the snake_case
/// spelling `k`: one of its own, or one in a subgroup it visits (fixed, or
/// repeating with a count point among `names`).
pub open spec fn visits_enum_key(g: Group, names: Seq<Seq<char>>, k: Seq<char>) -> bool
    decreases g, 1nat, 0nat,
{
    own_enum_key(g.points@, k) || children_visit_key(g, g.groups@.len() as nat, names, k)
}

pub open spec fn children_visit_key(g: Group, n: nat, names: Seq<Seq<char>>, k: Seq<char>) -> bool
    decreases g, 0nat, n,
{
    if n == 0 || n > g.groups@.len() {
        false
    } else {
        children_visit_key(g, (n - 1) as nat, names, k) || (is_visited(g.groups@[n - 1], names)
            && visits_enum_key(g.groups@[n - 1], names, k))
    }
}

pub open spec fn fixed_visit_key(g: Group, n: nat, names: Seq<Seq<char>>, k: Seq<char>) -> bool
    decreases n,
{
    if n == 0 || n > g.groups@.len() {
        false
    } else {
        fixed_visit_key(g, (n - 1) as nat, names, k) || (is_fixed(g.groups@[n - 1])
            && visits_enum_key(g.groups@[n - 1], names, k))
    }
}

pub open spec fn found_visit_key(g: Group, n: nat, names: Seq<Seq<char>>, k: Seq<char>) -> bool
    decreases n,
{
    if n == 0 || n > g.groups@.len() {
        false
    } else {
        found_visit_key(g, (n - 1) as nat, names, k) || (is_found_repeating(g.groups@[n - 1], names)
            && visits_enum_key(g.groups@[n - 1], names, k))
    }
}

proof fn lemma_children_visit_split(g: Group, n: nat, names: Seq<Seq<char>>, k: Seq<char>)
    ensures
        children_visit_key(g, n, names, k) == (fixed_visit_key(g, n, names, k) || found_visit_key(
            g,
            n,
            names,
            k,
        )),
    decreases n,
{
    if n > 0 && n <= g.groups@.len() {
        lemma_children_visit_split(g, (n - 1) as nat, names, k);
    }
}

proof fn lemma_has_key_concat(a: Seq<SpecEnum>, b: Seq<SpecEnum>, k: Seq<char>)
    ensures
        has_key(a + b, k) == (has_key(a, k) || has_key(b, k)),
{
    if has_key(a + b, k) {
        let i = choose|i: int| 0 <= i < (a + b).len() && enum_key(#[trigger] (a + b)[i]) == k;
        if i < a.len() {
            assert(enum_key(a[i]) == k);
        } else {
            assert(enum_key(b[i - a.len()]) == k);
        }
    }
    if has_key(a, k) {
        let i = choose|i: int| 0 <= i < a.len() && enum_key(#[trigger] a[i]) == k;
        assert(enum_key((a + b)[i]) == k);
    }
    if has_key(b, k) {
        let i = choose|i: int| 0 <= i < b.len() && enum_key(#[trigger] b[i]) == k;
        assert(enum_key((a + b)[a.len() + i]) == k);
    }
}

proof fn lemma_children_enums_concat(a: Seq<(SpecPoint, SpecGroup)>, b: Seq<(SpecPoint, SpecGroup)>)
    ensures
        children_enums(a + b) == children_enums(a) + children_enums(b),
    decreases b.len(),
{
    if b.len() == 0 {
        assert(a + b =~= a);
        assert(children_enums(a) + children_enums(b) =~= children_enums(a));
    } else {
        assert((a + b).drop_last() =~= a + b.drop_last());
        lemma_children_enums_concat(a, b.drop_last());
        assert(children_enums(a + b) =~= children_enums(a) + children_enums(b));
    }
}

proof fn lemma_children_enums_key(cs: Seq<(SpecPoint, SpecGroup)>, k: Seq<char>)
    requires
        has_key(children_enums(cs), k),
    ensures
        exists|j: int| 0 <= j < cs.len() && has_key((#[trigger] cs[j]).1.enums, k),
    decreases cs.len(),
{
    let prev = cs.drop_last();
    lemma_has_key_concat(children_enums(prev), cs.last().1.enums, k);
    if has_key(children_enums(prev), k) {
        lemma_children_enums_key(prev, k);
        let j = choose|j: int| 0 <= j < prev.len() && has_key((#[trigger] prev[j]).1.enums, k);
        assert(cs[j] == prev[j]);
    } else {
        assert(has_key(cs[cs.len() - 1].1.enums, k));
    }
}

proof fn lemma_own_enum_keys(ps: Seq<Point>, k: Seq<char>)
    ensures
        has_key(own_enums(ps), k) == own_enum_key(ps, k),
    decreases ps.len(),
{
    if ps.len() > 0 {
        let prev = ps.drop_last();
        lemma_own_enum_keys(prev, k);
        let p = ps.last();
        if own_enum_key(prev, k) {
            let i = choose|i: int| 0 <= i < prev.len() && is_enum_point(#[trigger] prev[i]) && snake_case_of(prev[i].name@) == k;
            assert(ps[i] == prev[i]);
        }
        if own_enum_key(ps, k) {
            let i = choose|i: int| 0 <= i < ps.len() && is_enum_point(#[trigger] ps[i]) && snake_case_of(ps[i].name@) == k;
            if i < ps.len() - 1 {
                assert(prev[i] == ps[i]);
            }
        }
        match spec_resolve_enum(p) {
            Some(e) => {
                lemma_has_key_concat(own_enums(prev), seq![e], k);
                if enum_key(e) == k {
                    assert(enum_key(seq![e][0]) == k);
                    assert(is_enum_point(ps[ps.len() - 1]));
                }
                if has_key(seq![e], k) {
                    let j = choose|j: int| 0 <= j < 1 && enum_key(#[trigger] seq![e][j]) == k;
                    assert(seq![e][j] == e);
                }
                assert(own_enums(prev).push(e) =~= own_enums(prev) + seq![e]);
            },
            None => {},
        }
    } else {
        assert(!has_key(own_enums(ps), k));
    }
}

/// A resolved group's enums hold the snake_case name `k` exactly when
/// resolution visits an enumerated point of that name.
pub proof fn lemma_group_enum_keys(g: Group, top: Option<Seq<SpecPoint>>, c: SpecCtx, k: Seq<char>)
    ensures
        ({
            let t = match top {
                Some(t) => t,
                None => root_points_spec(g, c.ident, c.prefix, c.blocks),
            };
            has_key(spec_group(g, top, c).enums, k) == visits_enum_key(g, spec_names(t), k)
        }),
    decreases g, 1nat, 0nat,
{
    let sg = spec_group(g, top, c);
    let root = root_points_spec(g, c.ident, c.prefix, c.blocks);
    let t = match top {
        Some(t) => t,
        None => root,
    };
    let names = spec_names(t);
    let n = g.groups@.len() as nat;
    let fixed = spec_fixed(g, n, t, c);
    let direct = spec_direct(g, n, t, c);
    let own = own_enums(g.points@);
    let fe = flatten_enums(fixed);
    let ce = children_enums(sg.repeating_children);
    let es = own + fe + ce;
    lemma_sort_dedup_enums(es);
    assert(has_key(sg.enums, k) == has_key(es, k)) by {
        if has_key(es, k) {
            let i = choose|i: int| 0 <= i < es.len() && enum_key(#[trigger] es[i]) == k;
            assert(has_key(sg.enums, enum_key(es[i])));
        }
        if has_key(sg.enums, k) {
            let i = choose|i: int| 0 <= i < sg.enums.len() && enum_key(#[trigger] sg.enums[i]) == k;
            let j = choose|j: int| 0 <= j < es.len() && es[j] == #[trigger] sg.enums[i] && forall|m: int|
                0 <= m < j ==> enum_key(#[trigger] es[m]) != enum_key(es[j]);
            assert(enum_key(es[j]) == k);
        }
    }
    lemma_has_key_concat(own + fe, ce, k);
    lemma_has_key_concat(own, fe, k);
    lemma_own_enum_keys(g.points@, k);
    lemma_children_enums_concat(direct, flatten_children(fixed));
    lemma_has_key_concat(children_enums(direct), children_enums(flatten_children(fixed)), k);
    lemma_fixed_enum_keys(g, n, t, c, k);
    lemma_direct_enum_keys(g, n, t, c, k);
    lemma_children_visit_split(g, n, names, k);
}

proof fn lemma_fixed_enum_keys(g: Group, n: nat, t: Seq<SpecPoint>, c: SpecCtx, k: Seq<char>)
    ensures
        (has_key(flatten_enums(spec_fixed(g, n, t, c)), k) || has_key(
            children_enums(flatten_children(spec_fixed(g, n, t, c))),
            k,
        )) == fixed_visit_key(g, n, spec_names(t), k),
    decreases g, 0nat, n,
{
    if n == 0 || n > g.groups@.len() {
    } else {
        let child = g.groups@[n - 1];
        let prev = spec_fixed(g, (n - 1) as nat, t, c);
        lemma_fixed_enum_keys(g, (n - 1) as nat, t, c, k);
        if is_fixed(child) {
            let cg = spec_group(child, Some(t), fixed_ctx(child, c));
            lemma_group_enum_keys(child, Some(t), fixed_ctx(child, c), k);
            lemma_group_enums_bubble_up(child, Some(t), fixed_ctx(child, c));
            assert(prev.push(cg).drop_last() =~= prev);
            lemma_has_key_concat(flatten_enums(prev), cg.enums, k);
            lemma_children_enums_concat(flatten_children(prev), cg.repeating_children);
            lemma_has_key_concat(
                children_enums(flatten_children(prev)),
                children_enums(cg.repeating_children),
                k,
            );
            if has_key(children_enums(cg.repeating_children), k) {
                lemma_children_enums_key(cg.repeating_children, k);
                let j = choose|j: int|
                    0 <= j < cg.repeating_children.len() && has_key(
                        (#[trigger] cg.repeating_children[j]).1.enums,
                        k,
                    );
                lemma_bubble_child(cg, cg.repeating_children.len(), j);
                let m = choose|m: int|
                    0 <= m < cg.repeating_children[j].1.enums.len() && enum_key(
                        #[trigger] cg.repeating_children[j].1.enums[m],
                    ) == k;
                assert(has_key(cg.enums, enum_key(cg.repeating_children[j].1.enums[m])));
            }
        }
    }
}

proof fn lemma_direct_enum_keys(g: Group, n: nat, t: Seq<SpecPoint>, c: SpecCtx, k: Seq<char>)
    ensures
        has_key(children_enums(spec_direct(g, n, t, c)), k) == found_visit_key(g, n, spec_names(t), k),
    decreases g, 0nat, n,
{
    if n == 0 || n > g.groups@.len() {
    } else {
        let child = g.groups@[n - 1];
        let prev = spec_direct(g, (n - 1) as nat, t, c);
        lemma_direct_enum_keys(g, (n - 1) as nat, t, c, k);
        match child.count {
            GroupCount::String(cn) => {
                crate::group::lemma_find_point_contains(t, cn@);
                match find_point(t, cn@) {
                    Some(p) => {
                        let cg = spec_group(child, Some(t), repeating_ctx(child, c));
                        lemma_group_enum_keys(child, Some(t), repeating_ctx(child, c), k);
                        let cur = spec_direct(g, n, t, c);
                        assert(cur.drop_last() =~= prev);
                        lemma_has_key_concat(children_enums(prev), cg.enums, k);
                    },
                    None => {},
                }
            },
            GroupCount::Integer(_) => {},
        }
    }
}

/// A resolved group holds one enum per distinct snake_case name among the
/// enumerated points that its resolution visits, and no more.
pub proof fn lemma_group_enum_count(g: Group, top: Option<Seq<SpecPoint>>, c: SpecCtx)
    ensures
        ({
            let t = match top {
                Some(t) => t,
                None => root_points_spec(g, c.ident, c.prefix, c.blocks),
            };
            spec_group(g, top, c).enums.len() == Set::new(
                |k: Seq<char>| visits_enum_key(g, spec_names(t), k),
            ).len()
        }),
{
    let t = match top {
        Some(t) => t,
        None => root_points_spec(g, c.ident, c.prefix, c.blocks),
    };
    let es = spec_group(g, top, c).enums;
    let keys = es.map_values(|e: SpecEnum| enum_key(e));
    lemma_group_enums_sorted(g, top, c);
    assert(keys.no_duplicates()) by {
        assert forall|i: int, j: int| 0 <= i < keys.len() && 0 <= j < keys.len() && i != j implies keys[i] != keys[j] by {
            if i < j {
                assert(enum_key(es[i]) != enum_key(es[j]));
            } else {
                assert(enum_key(es[j]) != enum_key(es[i]));
            }
        }
    }
    keys.unique_seq_to_set();
    assert(keys.to_set() =~= Set::new(|k: Seq<char>| visits_enum_key(g, spec_names(t), k))) by {
        assert forall|k: Seq<char>| keys.to_set().contains(k) <==> visits_enum_key(g, spec_names(t), k) by {
            lemma_group_enum_keys(g, top, c, k);
            if keys.contains(k) {
                let i = choose|i: int| 0 <= i < keys.len() && keys[i] == k;
                assert(enum_key(es[i]) == k);
            }
            if has_key(es, k) {
                let i = choose|i: int| 0 <= i < es.len() && enum_key(#[trigger] es[i]) == k;
                assert(keys[i] == k);
            }
        }
    }
}

/* What each point type resolves to */

/// A point of a plain numeric type (and an enumerated type without symbols)
/// is handed over as its fixed primitive type, in Rust and in C alike, and
/// moved by the buffer functions named after that type; strings and the
/// two address types are handed over as references to fixed arrays.
pub proof fn lemma_point_type_table(p: Point)
    ensures
        ({
            let r = spec_point_type(p);
            let plain = |b: Seq<char>|
                r.rust_type == b && r.c_type == b && r.writer_function_name == "write_"@
                    + snake_case_of(b) && r.reader_function_name == "read_"@ + snake_case_of(b)
                    && r.array_length is None && r.cast_from_c is None;
            &&& (p.type_ == PointType::Uint16 || p.type_ == PointType::Raw16 || p.type_
                == PointType::Acc16 || p.type_ == PointType::Bitfield16 || p.type_ == PointType::Pad
                || p.type_ == PointType::Count) ==> plain("u16"@)
            &&& (p.type_ == PointType::Uint32 || p.type_ == PointType::Acc32 || p.type_
                == PointType::Bitfield32 || p.type_ == PointType::Ipaddr) ==> plain("u32"@)
            &&& (p.type_ == PointType::Uint64 || p.type_ == PointType::Acc64 || p.type_
                == PointType::Bitfield64) ==> plain("u64"@)
            &&& (p.type_ == PointType::Int16 || p.type_ == PointType::Sunssf) ==> plain("i16"@)
            &&& p.type_ == PointType::Int32 ==> plain("i32"@)
            &&& p.type_ == PointType::Int64 ==> plain("i64"@)
            &&& p.type_ == PointType::Float32 ==> plain("f32"@)
            &&& p.type_ == PointType::Float64 ==> plain("f64"@)
            &&& (p.type_ == PointType::Enum16 && p.symbols@.len() == 0) ==> plain("u16"@)
            &&& (p.type_ == PointType::Enum32 && p.symbols@.len() == 0) ==> plain("u32"@)
            &&& (p.type_ == PointType::Enum16 && p.symbols@.len() > 0) ==> r.enum_repr == Some("u16"@)
                && r.writer_function_name == "write_"@ + snake_case_of("u16"@)
            &&& (p.type_ == PointType::Enum32 && p.symbols@.len() > 0) ==> r.enum_repr == Some("u32"@)
                && r.writer_function_name == "write_"@ + snake_case_of("u32"@)
            &&& p.type_ == PointType::String ==> r.rust_type == "&CStr"@ && r.c_type == "c_char"@
                && r.writer_function_name == "write_"@ + snake_case_of("string"@)
                && r.reader_function_name == "read_"@ + snake_case_of("string"@) + "::<"@
                + decimal_text(p.size * 2) + ">"@ && r.array_length == Some((p.size * 2) as i64)
                && r.cast_from_c == Some(CastFromC::String)
            &&& p.type_ == PointType::Eui48 ==> r.rust_type == "&[u8; 6]"@ && r.c_type == "u8"@
                && r.writer_function_name == "write_"@ + snake_case_of("eui48"@)
                && r.array_length == Some(6i64) && r.cast_from_c == Some(CastFromC::Eui48)
            &&& p.type_ == PointType::Ipv6addr ==> r.rust_type == "&[u16; 8]"@ && r.c_type == "u16"@
                && r.writer_function_name == "write_"@ + snake_case_of("Ipv6Addr"@)
                && r.array_length == Some(8i64) && r.cast_from_c == Some(CastFromC::Ipv6addr)
            &&& r.size == p.size as u16
        }),
{
}

/* Where a point's value comes from */

/// Padding always reads zero; otherwise a fixed value is served as written;
/// otherwise the point whose schema name is the single letter `L` serves the
/// model length, and every other point is read from the adapter.
pub proof fn lemma_value_source(p: Point)
    ensures
        p.type_ == PointType::Pad ==> spec_value_type(p) == SpecValueType::StaticValue(seq!['0']),
        p.type_ != PointType::Pad && p.value is Some ==> spec_value_type(p)
            == SpecValueType::StaticValue(p.value->0@),
        (spec_value_type(p) is ModelLength) <==> (p.type_ != PointType::Pad && p.value is None
            && p.name@ == seq!['L']),
        (spec_value_type(p) is Adapter) <==> (p.type_ != PointType::Pad && p.value is None
            && p.name@ != seq!['L']),
{
    reveal_strlit("0");
    reveal_strlit("L");
    assert("0"@ =~= seq!['0']);
    assert("L"@ =~= seq!['L']);
}

/* Enum variants */

/// An enumerated point with symbols resolves to an enum named after the
/// point, with one variant per symbol in schema order: each variant is named
/// after its symbol's schema name (whatever its label) and has the symbol's
/// value, in decimal, as its discriminant.
pub proof fn lemma_enum_values(p: Point)
    requires
        is_enum_point(p),
    ensures
        spec_resolve_enum(p) is Some,
        spec_resolve_enum(p)->0.name.snake_case == snake_case_of(p.name@),
        spec_resolve_enum(p)->0.name.pascal_case == pascal_case_of(p.name@),
        spec_resolve_enum(p)->0.values.len() == p.symbols@.len(),
        forall|i: int|
            0 <= i < p.symbols@.len() ==> {
                &&& (#[trigger] spec_resolve_enum(p)->0.values[i]).name_pascal_case == pascal_case_of(
                    p.symbols@[i].name@,
                )
                &&& spec_resolve_enum(p)->0.values[i].discriminant == decimal_text(
                    p.symbols@[i].value as int,
                )
            },
{
}

/* Naming contexts */

proof fn lemma_fixed_contains(g: Group, n: nat, t: Seq<SpecPoint>, c: SpecCtx, i: int)
    requires
        0 <= i < n <= g.groups@.len(),
        is_fixed(g.groups@[i]),
    ensures
        spec_fixed(g, n, t, c).contains(spec_group(g.groups@[i], Some(t), fixed_ctx(g.groups@[i], c))),
    decreases n,
{
    let prev = spec_fixed(g, (n - 1) as nat, t, c);
    let cur = spec_fixed(g, n, t, c);
    if i == n - 1 {
        assert(cur[cur.len() - 1] == spec_group(g.groups@[i], Some(t), fixed_ctx(g.groups@[i], c)));
    } else {
        lemma_fixed_contains(g, (n - 1) as nat, t, c, i);
        let m = choose|m: int| 0 <= m < prev.len() && prev[m] == spec_group(
            g.groups@[i],
            Some(t),
            fixed_ctx(g.groups@[i], c),
        );
        if is_fixed(g.groups@[n - 1]) {
            assert(cur[m] == prev[m]);
        }
    }
}

proof fn lemma_direct_contains(g: Group, n: nat, t: Seq<SpecPoint>, c: SpecCtx, j: int)
    requires
        0 <= j < n <= g.groups@.len(),
        g.groups@[j].count is String,
        find_point(t, g.groups@[j].count->String_0@) is Some,
    ensures
        spec_direct(g, n, t, c).contains(
            (
                find_point(t, g.groups@[j].count->String_0@)->0,
                spec_group(g.groups@[j], Some(t), repeating_ctx(g.groups@[j], c)),
            ),
        ),
    decreases n,
{
    let prev = spec_direct(g, (n - 1) as nat, t, c);
    let cur = spec_direct(g, n, t, c);
    let want = (
        find_point(t, g.groups@[j].count->String_0@)->0,
        spec_group(g.groups@[j], Some(t), repeating_ctx(g.groups@[j], c)),
    );
    if j == n - 1 {
        assert(cur[cur.len() - 1] == want);
    } else {
        lemma_direct_contains(g, (n - 1) as nat, t, c, j);
        let m = choose|m: int| 0 <= m < prev.len() && prev[m] == want;
        match g.groups@[n - 1].count {
            GroupCount::String(cn) => {
                match find_point(t, cn@) {
                    Some(q) => {
                        assert(cur[m] == prev[m]);
                    },
                    None => {},
                }
            },
            GroupCount::Integer(_) => {},
        }
    }
}

proof fn lemma_flatten_children_contains(fs: Seq<SpecGroup>, m: int, k: int)
    requires
        0 <= m < fs.len(),
        0 <= k < fs[m].repeating_children.len(),
    ensures
        flatten_children(fs).contains(fs[m].repeating_children[k]),
    decreases fs.len(),
{
    let prev = fs.drop_last();
    if m == fs.len() - 1 {
        assert(flatten_children(fs)[flatten_children(prev).len() + k] == fs[m].repeating_children[k]);
    } else {
        lemma_flatten_children_contains(prev, m, k);
        let x = choose|x: int| 0 <= x < flatten_children(prev).len() && flatten_children(prev)[x]
            == prev[m].repeating_children[k];
        assert(flatten_children(fs)[x] == flatten_children(prev)[x]);
    }
}

/// A repeating subgroup `H` (found through its count point) of a fixed
/// subgroup `F` of `g` is resolved into `g`'s repeating subgroups with a
/// short name cased from `F`'s schema name, the short text `g` is resolved
/// in, and `H`'s schema name: the fixed subgroup's name is kept in the short
/// text of everything below it, so arrays under different fixed siblings are
/// told apart.
pub proof fn lemma_fixed_subgroup_short_names(
    g: Group,
    top: Option<Seq<SpecPoint>>,
    c: SpecCtx,
    i: int,
    j: int,
)
    requires
        0 <= i < g.groups@.len(),
        is_fixed(g.groups@[i]),
        0 <= j < g.groups@[i].groups@.len(),
        is_found_repeating(
            g.groups@[i].groups@[j],
            spec_names(
                match top {
                    Some(t) => t,
                    None => root_points_spec(g, c.ident, c.prefix, c.blocks),
                },
            ),
        ),
    ensures
        exists|k: int|
            0 <= k < spec_group(g, top, c).repeating_children.len() && {
                let h = (#[trigger] spec_group(g, top, c).repeating_children[k]).1;
                &&& h.name_short == snake_case_of(
                    g.groups@[i].name@ + seq![' '] + c.short + seq![' '] + g.groups@[i].groups@[j].name@,
                )
                &&& h.local_name_short == snake_case_of(g.groups@[i].groups@[j].name@)
            },
{
    let t = match top {
        Some(t) => t,
        None => root_points_spec(g, c.ident, c.prefix, c.blocks),
    };
    let n = g.groups@.len() as nat;
    let f = g.groups@[i];
    let hg = f.groups@[j];
    let fc = fixed_ctx(f, c);
    let cg = spec_group(f, Some(t), fc);
    let cn = hg.count->String_0;
    crate::group::lemma_find_point_contains(t, cn@);
    lemma_direct_contains(f, f.groups@.len() as nat, t, fc, j);
    let want = (find_point(t, cn@)->0, spec_group(hg, Some(t), repeating_ctx(hg, fc)));
    let direct_f = spec_direct(f, f.groups@.len() as nat, t, fc);
    let x = choose|x: int| 0 <= x < direct_f.len() && direct_f[x] == want;
    assert(cg.repeating_children[x] == want);
    let fixed = spec_fixed(g, n, t, c);
    lemma_fixed_contains(g, n, t, c, i);
    let m = choose|m: int| 0 <= m < fixed.len() && fixed[m] == cg;
    lemma_flatten_children_contains(fixed, m, x);
    let y = choose|y: int| 0 <= y < flatten_children(fixed).len() && flatten_children(fixed)[y] == want;
    let sg = spec_group(g, top, c);
    let d = spec_direct(g, n, t, c).len();
    assert(sg.repeating_children[d + y] == want);
    assert(spaced(spaced(f.name@, c.short), hg.name@) =~= f.name@ + seq![' '] + c.short + seq![' ']
        + hg.name@);
}

/// A model's top-level group is resolved from an empty naming context: its
/// names and short name are cased from its label (or name) and its name
/// after one space, and each repeating subgroup found directly below it gets
/// a short name cased from its schema name after one space.
pub proof fn lemma_model_context(model: SunspecModel, j: int)
    requires
        0 <= j < model.group.groups@.len(),
        is_found_repeating(model.group.groups@[j], point_names(model.group.points@)),
    ensures
        spec_model_group(model).name_short == snake_case_of(seq![' '] + model.group.name@),
        spec_model_group(model).name.snake_case == snake_case_of(seq![' '] + group_label_text(model.group)),
        named_group(spec_model_group(model)).name_short == snake_case_of(seq![' '] + model.group.name@),
        spec_model_group(model).points.len() >= model.group.points@.len(),
        forall|i: int| 0 <= i < model.group.points@.len() ==> (#[trigger] spec_model_group(model).points[i]).block_indices.len() == 0,
        exists|k: int|
            0 <= k < spec_model_group(model).repeating_children.len() && (#[trigger] spec_model_group(
                model,
            ).repeating_children[k]).1.name_short == snake_case_of(seq![' '] + model.group.groups@[j].name@),
{
    let g = model.group;
    let c = mk_ctx(Seq::empty(), Seq::empty(), None, Seq::empty());
    let sg = spec_model_group(model);
    let root = root_points_spec(g, c.ident, c.prefix, c.blocks);
    assert(spec_names(root) =~= point_names(g.points@));
    assert(spaced(Seq::<char>::empty(), g.name@) =~= seq![' '] + g.name@);
    assert(spaced(Seq::<char>::empty(), group_label_text(g)) =~= seq![' '] + group_label_text(g));
    lemma_named_group_changes_only_names(sg);
    assert(strip_names(named_group(sg)).name_short == named_group(sg).name_short);
    lemma_group_point_blocks(g, None, c);
    crate::group::lemma_group_sizes(g, None, c);
    assert(sg.points.map_values(|q: SpecPoint| q.size).len() == sg.points.len());
    let hg = g.groups@[j];
    let cn = hg.count->String_0;
    crate::group::lemma_find_point_contains(root, cn@);
    let n = g.groups@.len() as nat;
    lemma_direct_contains(g, n, root, c, j);
    let want = (find_point(root, cn@)->0, spec_group(hg, Some(root), repeating_ctx(hg, c)));
    let direct = spec_direct(g, n, root, c);
    let x = choose|x: int| 0 <= x < direct.len() && direct[x] == want;
    assert(sg.repeating_children[x] == want);
    assert(spaced(Seq::<char>::empty(), hg.name@) =~= seq![' '] + hg.name@);
}

/* Enumerated points */

/// A point gets an enum of its own exactly when its resolved type is an enum:
/// the type names that enum, and is stored as the enum's discriminant type.
pub proof fn lemma_enum_type_matches(p: crate::schema::Point)
    ensures
        crate::point::spec_resolve_enum(p) is Some <==> crate::point::spec_point_type(p).enum_repr is Some,
        crate::point::spec_resolve_enum(p) matches Some(e) ==> {
            &&& crate::point::spec_point_type(p).rust_type == e.name.pascal_case
            &&& crate::point::spec_point_type(p).c_type == e.name.pascal_case
            &&& crate::point::spec_point_type(p).enum_repr == Some(e.discriminant_type)
        },
        crate::point::spec_point_type(p).enum_repr is Some <==> crate::point::is_enum_point(p),
        crate::point::is_enum_point(p) ==> {
            &&& crate::point::spec_point_type(p).rust_type == pascal_case_of(p.name@)
            &&& crate::point::spec_point_type(p).c_type == pascal_case_of(p.name@)
            &&& crate::point::spec_point_type(p).enum_repr == Some(
                if p.type_ == PointType::Enum16 {
                    "u16"@
                } else {
                    "u32"@
                },
            )
        },
{
}

/// Only the one-register 16-bit types are written without an offset; every
/// other type, strings and addresses included, allows one.
pub proof fn lemma_writer_offset(p: crate::schema::Point)
    ensures
        !crate::point::spec_point_type(p).writer_allow_offset <==> (p.type_ == PointType::Uint16
            || p.type_ == PointType::Raw16 || p.type_ == PointType::Acc16 || p.type_
            == PointType::Bitfield16 || p.type_ == PointType::Pad || p.type_ == PointType::Count
            || p.type_ == PointType::Enum16 || p.type_ == PointType::Int16 || p.type_
            == PointType::Sunssf),
{
    reveal_strlit("u16");
    reveal_strlit("i16");
    reveal_strlit("u32");
    reveal_strlit("u64");
    reveal_strlit("i32");
    reveal_strlit("i64");
    reveal_strlit("f32");
    reveal_strlit("f64");
    reveal_strlit("string");
    reveal_strlit("Ipv6Addr");
    reveal_strlit("eui48");
    let b = crate::point::base_type_text(p.type_);
    assert(("u16"@)[1] == '1' && ("i16"@)[1] == '1' && ("u16"@).len() == 3 && ("i16"@).len() == 3);
    match p.type_ {
        PointType::Uint32 | PointType::Acc32 | PointType::Bitfield32 | PointType::Enum32
        | PointType::Ipaddr | PointType::Int32 | PointType::Float32 => {
            assert(b[1] == '3');
        },
        PointType::Uint64 | PointType::Acc64 | PointType::Bitfield64 | PointType::Int64
        | PointType::Float64 => {
            assert(b[1] == '6');
        },
        PointType::String | PointType::Ipv6addr | PointType::Eui48 => {
            assert(b.len() != 3);
        },
        _ => {},
    }
}

/* Resolved groups, restated */

/// A resolved group is named from its label (or schema name) within its
/// identifier text; its local short name is its own schema name alone, and
/// its short name joins the short text with that schema name.
pub proof fn lemma_group_identity(g: Group, top: Option<Seq<SpecPoint>>, c: SpecCtx)
    ensures
        spec_group(g, top, c).name.snake_case == snake_case_of(
            c.ident + seq![' '] + match g.label {
                Some(l) => l@,
                None => g.name@,
            },
        ),
        spec_group(g, top, c).name.pascal_case == pascal_case_of(
            c.ident + seq![' '] + match g.label {
                Some(l) => l@,
                None => g.name@,
            },
        ),
        spec_group(g, top, c).local_name_short == snake_case_of(g.name@),
        spec_group(g, top, c).name_short == snake_case_of(c.short + seq![' '] + g.name@),
{
    let l = match g.label {
        Some(l) => l@,
        None => g.name@,
    };
    assert(spaced(c.ident, group_label_text(g)) =~= c.ident + seq![' '] + l);
    assert(spaced(c.short, g.name@) =~= c.short + seq![' '] + g.name@);
}

/// A point is named, within identifier text `ident` and prefix `prefix`, by
/// casing `ident`, a space, the prefix (nothing when there is none), a space
/// and its main name: its label, less a leading `Set ` when the point is
/// read-write, or its schema name when it has no label.
pub proof fn lemma_point_name(
    p: Point,
    ident: Seq<char>,
    prefix: Option<Seq<char>>,
    blocks: Seq<SpecBlockIndex>,
)
    ensures
        ({
            let set_prefix = seq!['S', 'e', 't', ' '];
            let main = match p.label {
                None => p.name@,
                Some(l) => if p.access == PointAccess::Rw && l@.len() >= 4 && l@.take(4)
                    == set_prefix {
                    l@.skip(4)
                } else {
                    l@
                },
            };
            let text = ident + seq![' '] + match prefix {
                Some(x) => x,
                None => Seq::empty(),
            } + seq![' '] + main;
            &&& spec_point(p, ident, prefix, blocks).name.snake_case == snake_case_of(text)
            &&& spec_point(p, ident, prefix, blocks).name.pascal_case == pascal_case_of(text)
            &&& spec_point(p, ident, prefix, blocks).internal_name == p.name@
            &&& spec_point(p, ident, prefix, blocks).block_indices == blocks
        }),
{
    let set_prefix = seq!['S', 'e', 't', ' '];
    match p.label {
        Some(l) => {
            if l@.len() >= 4 {
                if l@.take(4) == set_prefix {
                    assert(has_set_prefix(l@));
                } else if has_set_prefix(l@) {
                    assert(l@.take(4) =~= set_prefix);
                }
            }
            assert(l@.subrange(4, l@.len() as int) =~= l@.skip(4));
        },
        None => {},
    }
    let main = main_name_text(p);
    let x = match prefix {
        Some(x) => x,
        None => Seq::<char>::empty(),
    };
    assert(point_name_text(p, ident, prefix) =~= ident + seq![' '] + x + seq![' '] + main);
}

/// A resolved group's static size is the sum of its listed points' sizes,
/// and those are the register sizes of its own schema points and of its fixed
/// subgroups' (recursively), each as a `u16`; repeating subgroups' points do
/// not count.
pub proof fn lemma_group_static_size(g: Group, top: Option<Seq<SpecPoint>>, c: SpecCtx)
    ensures
        spec_group(g, top, c).points.map_values(|p: SpecPoint| p.size) == schema_sizes(g),
        spec_group(g, top, c).static_size == sum_sizes(schema_sizes(g)),
{
    crate::group::lemma_group_sizes(g, top, c);
}

/// A resolved group's repeating subgroups are its own repeating subgroups
/// whose count point is found among the top-level points, in schema order,
/// followed by those of each fixed subgroup in turn.
pub proof fn lemma_repeating_children_order(g: Group, top: Option<Seq<SpecPoint>>, c: SpecCtx)
    ensures
        ({
            let t = match top {
                Some(t) => t,
                None => root_points_spec(g, c.ident, c.prefix, c.blocks),
            };
            spec_group(g, top, c).repeating_children == spec_direct(g, g.groups@.len() as nat, t, c)
                + flatten_children(spec_fixed(g, g.groups@.len() as nat, t, c))
        }),
{
}

/// A resolved group's enums are, sorted by snake_case name with no name
/// twice, the first under each name among the enums of its own points, then
/// of its fixed subgroups, then of its repeating subgroups.
pub proof fn lemma_group_enums_first_occurrences(g: Group, top: Option<Seq<SpecPoint>>, c: SpecCtx)
    ensures
        ({
            let t = match top {
                Some(t) => t,
                None => root_points_spec(g, c.ident, c.prefix, c.blocks),
            };
            let sg = spec_group(g, top, c);
            sorted_first_occurrences(
                sg.enums,
                own_enums(g.points@) + flatten_enums(spec_fixed(g, g.groups@.len() as nat, t, c))
                    + children_enums(sg.repeating_children),
            )
        }),
{
    let t = match top {
        Some(t) => t,
        None => root_points_spec(g, c.ident, c.prefix, c.blocks),
    };
    let sg = spec_group(g, top, c);
    lemma_sort_dedup_enums(
        own_enums(g.points@) + flatten_enums(spec_fixed(g, g.groups@.len() as nat, t, c))
            + children_enums(sg.repeating_children),
    );
}

/* Count collection */

proof fn lemma_collect_counts_full(g: SpecGroup, acc: Seq<SpecPoint>)
    requires
        counts_in_subtree(g, spec_names(acc)),
    ensures
        collect_counts(g, acc) == acc,
    decreases g, 1nat, 0nat,
{
    lemma_collect_children_full(g, g.repeating_children.len(), acc);
}

proof fn lemma_collect_children_full(g: SpecGroup, n: nat, acc: Seq<SpecPoint>)
    requires
        counts_in_children(g, n, spec_names(acc)),
    ensures
        collect_children(g, n, acc) == acc,
    decreases g, 0nat, n,
{
    if n > 0 && n <= g.repeating_children.len() {
        lemma_collect_children_full(g, (n - 1) as nat, acc);
        lemma_collect_counts_full(g.repeating_children[n - 1].1, acc);
    }
}

/// Collecting the count points of a subtree a second time adds nothing.
pub proof fn lemma_collect_counts_idempotent(g: SpecGroup, acc: Seq<SpecPoint>)
    ensures
        collect_counts(g, collect_counts(g, acc)) == collect_counts(g, acc),
{
    lemma_collect_counts(g, acc);
    lemma_collect_counts_full(g, collect_counts(g, acc));
}

} // verus!
