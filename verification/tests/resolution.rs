use sunspec_gen::group::{resolve_group, ResolvedGroup};
use sunspec_gen::model::{collect_count_points, register_names, resolve_model, CountPoint};
use sunspec_gen::naming::{NameTable, Named};
use sunspec_gen::point::{
    enum_from_names, main_name, point_name, point_type_from_names, resolve_enum, resolve_point,
    resolve_point_doc, resolve_point_type, resolve_value_type,
};
use sunspec_gen::resolved::{CastFromC, CodegenFeature, PointValueType};
use sunspec_gen::naming::Name;
use sunspec_gen::schema::{
    Group, GroupCount, Point, PointAccess, PointMandatory, PointType, SunspecModel, Symbol,
};

fn point(name: &str, type_: PointType, size: i64) -> Point {
    Point {
        name: name.to_string(),
        label: None,
        desc: None,
        detail: None,
        type_,
        size,
        access: PointAccess::R,
        mandatory: PointMandatory::M,
        value: None,
        symbols: Vec::new(),
    }
}

fn labelled(name: &str, label: &str, type_: PointType, size: i64, access: PointAccess) -> Point {
    Point { label: Some(label.to_string()), access, ..point(name, type_, size) }
}

fn symbol(name: &str, value: i64) -> Symbol {
    Symbol { name: name.to_string(), value, label: None, desc: None, detail: None }
}

fn group(name: &str, label: Option<&str>, count: GroupCount, points: Vec<Point>, groups: Vec<Group>) -> Group {
    Group { name: name.to_string(), label: label.map(|l| l.to_string()), count, points, groups }
}

/// A cut-down model 708: a repeating curve set counted by `NCrvSet`, whose
/// must-trip and may-trip curves are fixed subgroups that each wrap a
/// repeating point array counted by the shared `NPt`.
fn curve_model() -> SunspecModel {
    let mut ena = labelled("Ena", "DER Trip HV Module Enable", PointType::Enum16, 1, PointAccess::Rw);
    ena.symbols = vec![symbol("DISABLED", 0), symbol("ENABLED", 1)];
    let mut read_only = labelled("ReadOnly", "Curve Access", PointType::Enum16, 1, PointAccess::R);
    read_only.symbols = vec![symbol("RW", 0), symbol("R", 1)];
    let mut id = labelled("ID", "Model ID", PointType::Uint16, 1, PointAccess::R);
    id.value = Some("708".to_string());
    let curve_points = |prefix: &str| {
        group(
            "Pt",
            Some(&format!("{prefix} Curve Points")),
            GroupCount::String("NPt".to_string()),
            vec![
                labelled("V", "Voltage Point", PointType::Uint16, 1, PointAccess::Rw),
                labelled("Tms", "Time Point", PointType::Uint32, 2, PointAccess::Rw),
            ],
            vec![],
        )
    };
    let curve = |name: &str, label: &str, pts: &str| {
        group(
            name,
            Some(label),
            GroupCount::Integer(1),
            vec![labelled("ActPt", "Number Of Active Points", PointType::Uint16, 1, PointAccess::Rw)],
            vec![curve_points(pts)],
        )
    };
    SunspecModel {
        group: group(
            "DERTripHV",
            None,
            GroupCount::Integer(1),
            vec![
                id,
                labelled("L", "Model Length", PointType::Uint16, 1, PointAccess::R),
                ena,
                labelled("NPt", "Number Of Points", PointType::Uint16, 1, PointAccess::R),
                labelled("NCrvSet", "Stored Curve Count", PointType::Uint16, 1, PointAccess::R),
            ],
            vec![group(
                "Crv",
                Some("Stored Curves"),
                GroupCount::String("NCrvSet".to_string()),
                vec![read_only],
                vec![
                    curve("MustTrip", "Must Trip Curve", "Must Trip"),
                    curve("MayTrip", "May Trip Curve", "May Trip"),
                ],
            )],
        ),
    }
}

#[test]
fn plain_integer_point_type() {
    let mut features = Vec::new();
    let t = resolve_point_type(&point("W", PointType::Int16, 1), &mut features);
    assert_eq!(t.rust_type, "i16");
    assert_eq!(t.c_type, "i16");
    assert_eq!(t.size, 1);
    assert_eq!(t.writer_function_name, "write_i16");
    assert_eq!(t.reader_function_name, "read_i16");
    assert!(!t.writer_allow_offset);
    assert_eq!(t.enum_repr, None);
    assert_eq!(t.array_length, None);
    assert_eq!(t.cast_from_c, None);
    assert!(features.is_empty());
}

#[test]
fn wide_point_types_allow_an_offset() {
    let mut features = Vec::new();
    for (ty, base) in [
        (PointType::Uint32, "u32"),
        (PointType::Acc64, "u64"),
        (PointType::Int64, "i64"),
        (PointType::Float32, "f32"),
        (PointType::Ipaddr, "u32"),
    ] {
        let t = resolve_point_type(&point("X", ty, 2), &mut features);
        assert_eq!(t.rust_type, base);
        assert_eq!(t.writer_function_name, format!("write_{base}"));
        assert!(t.writer_allow_offset);
    }
    let t = resolve_point_type(&point("X", PointType::Sunssf, 1), &mut features);
    assert_eq!(t.rust_type, "i16");
    assert!(!t.writer_allow_offset);
}

#[test]
fn string_point_type_and_feature() {
    let mut features = Vec::new();
    let t = resolve_point_type(&point("Mn", PointType::String, 16), &mut features);
    assert_eq!(t.rust_type, "&CStr");
    assert_eq!(t.c_type, "c_char");
    assert_eq!(t.array_length, Some(32));
    assert_eq!(t.writer_function_name, "write_string");
    assert_eq!(t.reader_function_name, "read_string::<32>");
    assert_eq!(t.cast_from_c, Some(CastFromC::String));
    assert!(t.writer_allow_offset);
    assert_eq!(features, vec![CodegenFeature::String]);
    resolve_point_type(&point("Md", PointType::String, 8), &mut features);
    assert_eq!(features, vec![CodegenFeature::String]);
}

#[test]
fn address_point_types() {
    let mut features = Vec::new();
    let t = resolve_point_type(&point("Mac", PointType::Eui48, 4), &mut features);
    assert_eq!(t.rust_type, "&[u8; 6]");
    assert_eq!(t.c_type, "u8");
    assert_eq!(t.array_length, Some(6));
    assert_eq!(t.writer_function_name, "write_eui48");
    assert_eq!(t.cast_from_c, Some(CastFromC::Eui48));
    let t = resolve_point_type(&point("Addr", PointType::Ipv6addr, 8), &mut features);
    assert_eq!(t.rust_type, "&[u16; 8]");
    assert_eq!(t.c_type, "u16");
    assert_eq!(t.array_length, Some(8));
    assert_eq!(t.writer_function_name, "write_ipv6_addr");
    assert_eq!(t.reader_function_name, "read_ipv6_addr");
    assert_eq!(t.cast_from_c, Some(CastFromC::Ipv6addr));
    assert!(features.is_empty());
}

#[test]
fn enum_point_type_names_its_enum() {
    let mut features = Vec::new();
    let mut p = point("St", PointType::Enum16, 1);
    p.symbols = vec![symbol("OFF", 1)];
    let t = resolve_point_type(&p, &mut features);
    assert_eq!(t.rust_type, "St");
    assert_eq!(t.c_type, "St");
    assert_eq!(t.enum_repr, Some("u16".to_string()));
    assert_eq!(t.writer_function_name, "write_u16");
    let e = resolve_enum(&p).unwrap();
    assert_eq!(e.name.pascal_case, t.rust_type);
    assert_eq!(Some(e.discriminant_type), t.enum_repr);
    let empty = point("Evt", PointType::Enum32, 2);
    let t = resolve_point_type(&empty, &mut features);
    assert_eq!(t.rust_type, "u32");
    assert_eq!(t.enum_repr, None);
}

#[test]
fn point_type_from_given_names() {
    let mut p = point("St", PointType::Enum32, 2);
    p.symbols = vec![symbol("OFF", 1)];
    let t = point_type_from_names(&p, "Given", "base");
    assert_eq!(t.rust_type, "Given");
    assert_eq!(t.writer_function_name, "write_base");
    assert_eq!(t.reader_function_name, "read_base");
    assert_eq!(t.enum_repr, Some("u32".to_string()));
    let s = point("Mn", PointType::String, -3);
    let t = point_type_from_names(&s, "Unused", "str");
    assert_eq!(t.reader_function_name, "read_str::<-6>");
    assert_eq!(t.array_length, Some(-6));
    assert_eq!(t.size, 65533);
}

#[test]
fn casts_from_c_pointers() {
    assert_eq!(CastFromC::String.apply("ptr"), "unsafe { CStr::from_ptr(ptr) }");
    assert_eq!(CastFromC::Eui48.apply("ptr"), "unsafe { &*(ptr as *const [u8; 6]) }");
    assert_eq!(CastFromC::Ipv6addr.apply("p"), "unsafe { &*(p as *const [u16; 8]) }");
}

#[test]
fn setpoint_labels_lose_their_set_prefix() {
    let rw = labelled("WMaxLimPct", "Set Active Power Limit", PointType::Uint16, 1, PointAccess::Rw);
    assert_eq!(main_name(&rw), "Active Power Limit");
    let r = labelled("WMaxLimPct", "Set Active Power Limit", PointType::Uint16, 1, PointAccess::R);
    assert_eq!(main_name(&r), "Set Active Power Limit");
    let short = labelled("X", "Set", PointType::Uint16, 1, PointAccess::Rw);
    assert_eq!(main_name(&short), "Set");
    assert_eq!(main_name(&point("DA", PointType::Uint16, 1)), "DA");
    assert_eq!(point_name(&rw, "Must Trip Curve ", &Some("Crv".to_string())), "Must Trip Curve  Crv Active Power Limit");
    assert_eq!(point_name(&point("DA", PointType::Uint16, 1), "", &None), "  DA");
}

#[test]
fn point_documentation_and_values() {
    let mut p = labelled("Mn", "Manufacturer", PointType::String, 16, PointAccess::R);
    p.desc = Some("Well known value".to_string());
    assert_eq!(resolve_point_doc(&p), vec!["Manufacturer (Mn)".to_string(), "Well known value".to_string()]);
    let mut q = point("Pad", PointType::Pad, 1);
    q.detail = Some("d".to_string());
    assert_eq!(resolve_point_doc(&q), vec!["Pad".to_string(), "d".to_string()]);
    assert_eq!(resolve_value_type(&q), PointValueType::StaticValue("0".to_string()));
    let mut id = point("ID", PointType::Uint16, 1);
    id.value = Some("1".to_string());
    assert_eq!(resolve_value_type(&id), PointValueType::StaticValue("1".to_string()));
    assert_eq!(resolve_value_type(&point("L", PointType::Uint16, 1)), PointValueType::ModelLength);
    assert_eq!(resolve_value_type(&point("DA", PointType::Uint16, 1)), PointValueType::Adapter);
}

#[test]
fn resolved_point_names_and_context() {
    let mut features = Vec::new();
    let p = labelled("DA", "Device Address", PointType::Uint16, 1, PointAccess::Rw);
    let r = resolve_point(&p, &mut features, "", None, vec![]).unwrap();
    assert_eq!(r.name.snake_case, "device_address");
    assert_eq!(r.name.pascal_case, "DeviceAddress");
    assert_eq!(r.name_ref().snake_case, "device_address");
    assert_eq!(r.internal_name, "DA");
    assert_eq!(r.access, PointAccess::Rw);
    assert_eq!(r.size, 1);
    assert_eq!(r.doc, vec!["Device Address (DA)".to_string()]);
    assert_eq!(r.value_type, PointValueType::Adapter);
    assert!(r.block_indices.is_empty());
}

#[test]
fn enums_resolve_with_their_symbols() {
    let mut p = labelled("St", "Operating State", PointType::Enum16, 1, PointAccess::R);
    let mut off = symbol("OFF", 1);
    off.label = Some("Off".to_string());
    off.detail = Some("Device is off".to_string());
    p.symbols = vec![off, symbol("MPPT_TRACKING", -4)];
    let e = resolve_enum(&p).unwrap();
    assert_eq!(e.name.snake_case, "st");
    assert_eq!(e.name.pascal_case, "St");
    assert_eq!(e.discriminant_type, "u16");
    assert_eq!(e.values.len(), 2);
    assert_eq!(e.values[0].name_pascal_case, "Off");
    assert_eq!(e.values[0].discriminant, "1");
    assert_eq!(e.values[0].doc, vec!["Off".to_string(), "Device is off".to_string()]);
    assert_eq!(e.values[1].name_pascal_case, "MpptTracking");
    assert_eq!(e.values[1].discriminant, "-4");
    assert!(e.values[1].doc.is_empty());
    assert!(resolve_enum(&point("St", PointType::Enum16, 1)).is_none());
    let mut u = point("St", PointType::Uint16, 1);
    u.symbols = vec![symbol("A", 0)];
    assert!(resolve_enum(&u).is_none());
}

#[test]
fn enums_from_given_names() {
    let mut p = point("Evt", PointType::Enum32, 2);
    p.symbols = vec![symbol("A", 5)];
    let e = enum_from_names(&p, Name::new("e".to_string(), "E".to_string()), vec!["Alpha".to_string()]).unwrap();
    assert_eq!(e.name.snake_case, "e");
    assert_eq!(e.discriminant_type, "u32");
    assert_eq!(e.values[0].name_pascal_case, "Alpha");
    assert_eq!(e.values[0].discriminant, "5");
}

fn resolve_top(model: &SunspecModel, features: &mut Vec<CodegenFeature>) -> ResolvedGroup {
    resolve_group(&model.group, None, features, "", "", None, vec![])
}

#[test]
fn group_resolution_flattens_fixed_subgroups() {
    let model = curve_model();
    let mut features = Vec::new();
    let top = resolve_top(&model, &mut features);
    assert_eq!(top.name.snake_case, "der_trip_hv");
    assert_eq!(top.name.pascal_case, "DerTripHv");
    assert_eq!(top.name_short, "der_trip_hv");
    assert_eq!(top.local_name_short, "der_trip_hv");
    assert_eq!(top.static_size, 5);
    assert!(top.writable);
    assert_eq!(top.points.len(), 5);
    assert_eq!(top.points[4].name.snake_case, "stored_curve_count");
    assert_eq!(top.points[1].value_type, PointValueType::ModelLength);
    assert_eq!(top.points[0].value_type, PointValueType::StaticValue("708".to_string()));
    assert_eq!(top.repeating_children.len(), 1);
    let (count, crv) = &top.repeating_children[0];
    assert_eq!(count.internal_name, "NCrvSet");
    assert_eq!(crv.name.pascal_case, "StoredCurves");
    assert_eq!(crv.local_name_short, "crv");
    // The curve set holds its own point and the promoted points of both fixed curves.
    let names: Vec<&str> = crv.points.iter().map(|p| p.name.snake_case.as_str()).collect();
    assert_eq!(
        names,
        vec![
            "crv_curve_access",
            "must_trip_curve_crv_number_of_active_points",
            "may_trip_curve_crv_number_of_active_points",
        ]
    );
    assert_eq!(crv.static_size, 3);
    // Both curves' point arrays are spliced in, each counted by the shared NPt.
    assert_eq!(crv.repeating_children.len(), 2);
    let (must_count, must) = &crv.repeating_children[0];
    let (may_count, may) = &crv.repeating_children[1];
    assert_eq!(must_count.internal_name, "NPt");
    assert_eq!(may_count.internal_name, "NPt");
    assert_eq!(must.name.pascal_case, "MustTripCurveMustTripCurvePoints");
    assert_eq!(may.name.pascal_case, "MayTripCurveMayTripCurvePoints");
    assert_eq!(must.points[0].name.snake_case, "must_trip_curve_pt_voltage_point");
    assert_eq!(must.static_size, 3);
    assert!(must.writable && may.writable && crv.writable);
}

#[test]
fn block_indices_follow_repeating_groups() {
    let model = curve_model();
    let mut features = Vec::new();
    let top = resolve_top(&model, &mut features);
    assert!(top.points.iter().all(|p| p.block_indices.is_empty()));
    let crv = &top.repeating_children[0].1;
    for p in &crv.points {
        assert_eq!(p.block_indices.len(), 1);
        assert_eq!(p.block_indices[0].group_name, crv.name.snake_case);
        assert_eq!(p.block_indices[0].index_name, "crv_index");
    }
    for (_, pts) in &crv.repeating_children {
        for p in &pts.points {
            assert_eq!(p.block_indices.len(), 2);
            assert_eq!(p.block_indices[0].group_name, "stored_curves");
            let last = &p.block_indices[1];
            assert_eq!(last.group_name, pts.name.snake_case);
            assert_eq!(last.index_name, format!("{}_index", pts.local_name_short));
            assert_eq!(last.index_name, "pt_index");
        }
    }
}

#[test]
fn enums_bubble_up_sorted_and_deduplicated() {
    let model = curve_model();
    let mut features = Vec::new();
    let top = resolve_top(&model, &mut features);
    let names: Vec<&str> = top.enums.iter().map(|e| e.name.snake_case.as_str()).collect();
    assert_eq!(names, vec!["ena", "read_only"]);
    let crv = &top.repeating_children[0].1;
    let crv_names: Vec<&str> = crv.enums.iter().map(|e| e.name.snake_case.as_str()).collect();
    assert_eq!(crv_names, vec!["read_only"]);
    assert!(crv.repeating_children[0].1.enums.is_empty());
}

#[test]
fn unknown_count_points_drop_their_group() {
    let model = SunspecModel {
        group: group(
            "M",
            None,
            GroupCount::Integer(1),
            vec![point("N", PointType::Uint16, 1)],
            vec![group(
                "G",
                None,
                GroupCount::String("Missing".to_string()),
                vec![point("S", PointType::String, 4)],
                vec![],
            )],
        ),
    };
    let mut features = Vec::new();
    let top = resolve_top(&model, &mut features);
    assert!(top.repeating_children.is_empty());
    assert!(!top.writable);
    assert!(features.is_empty());
}

#[test]
fn features_come_from_visited_string_points() {
    let model = SunspecModel {
        group: group(
            "M",
            None,
            GroupCount::Integer(1),
            vec![point("N", PointType::Uint16, 1)],
            vec![group(
                "G",
                None,
                GroupCount::String("N".to_string()),
                vec![point("S", PointType::String, 4)],
                vec![],
            )],
        ),
    };
    let mut features = Vec::new();
    let top = resolve_top(&model, &mut features);
    assert_eq!(top.repeating_children.len(), 1);
    assert_eq!(features, vec![CodegenFeature::String]);
}

#[test]
fn count_points_are_collected_once_each() {
    let model = curve_model();
    let mut features = Vec::new();
    let top = resolve_top(&model, &mut features);
    let mut counts: Vec<CountPoint> = Vec::new();
    collect_count_points(&top, &mut counts);
    let names: Vec<&str> = counts.iter().map(|c| c.point.internal_name.as_str()).collect();
    assert_eq!(names, vec!["NCrvSet", "NPt"]);
    collect_count_points(&top, &mut counts);
    assert_eq!(counts.len(), 2);
}

#[test]
fn names_are_registered_for_the_whole_tree() {
    let model = curve_model();
    let mut features = Vec::new();
    let top = resolve_top(&model, &mut features);
    let mut points = NameTable::new();
    let mut groups = NameTable::new();
    register_names(&top, &mut points, &mut groups);
    assert_eq!(points.entries.len(), 5 + 3 + 2 + 2);
    assert_eq!(groups.entries.len(), 4);
    assert_eq!(groups.entries[0].name.snake_case, "der_trip_hv");
    assert_eq!(groups.entries[1].name.snake_case, "stored_curves");
    assert!(groups.entries.iter().all(|e| e.fallback.is_none()));
    let fallback = points.entries[2].fallback.as_ref().unwrap();
    assert_eq!(fallback.snake_case, "ena");
    assert_eq!(fallback.pascal_case, "Ena");
}

#[test]
fn models_resolve_with_number_name_and_tables() {
    let model = curve_model();
    let resolved = resolve_model(&model, "model_708".to_string());
    assert_eq!(resolved.model_number, 708);
    assert_eq!(resolved.name.snake_case, "model_708");
    assert_eq!(resolved.name.pascal_case, "Model708");
    assert_eq!(resolved.name_ref().pascal_case, "Model708");
    assert!(resolved.features.is_empty());
    let counts: Vec<&str> =
        resolved.count_points.iter().map(|c| c.point.internal_name.as_str()).collect();
    assert_eq!(counts, vec!["NCrvSet", "NPt"]);
    let enums: Vec<&str> =
        resolved.group.enums.iter().map(|e| e.name.snake_case.as_str()).collect();
    assert_eq!(enums, vec!["ena", "read_only"]);
    // No name of this model clashes, so deduplication keeps every name.
    assert_eq!(resolved.group.name.snake_case, "der_trip_hv");
    assert_eq!(resolved.group.points[4].name.snake_case, "stored_curve_count");
    assert_eq!(resolved.group.repeating_children[0].1.name_ref().snake_case, "stored_curves");
}

#[test]
fn string_models_need_the_string_feature() {
    let model = SunspecModel {
        group: group(
            "common",
            Some("Common"),
            GroupCount::Integer(1),
            vec![labelled("Mn", "Manufacturer", PointType::String, 16, PointAccess::R)],
            vec![],
        ),
    };
    let resolved = resolve_model(&model, "model_1".to_string());
    assert_eq!(resolved.model_number, 1);
    assert_eq!(resolved.features, vec![CodegenFeature::String]);
    assert_eq!(resolved.group.static_size, 16);
    assert!(!resolved.group.writable);
}

#[test]
fn count_points_are_top_level_points() {
    let model = curve_model();
    let mut features = Vec::new();
    let top = resolve_top(&model, &mut features);
    let top_names: Vec<&str> = top.points.iter().map(|p| p.internal_name.as_str()).collect();
    let (count, crv) = &top.repeating_children[0];
    assert_eq!(count.internal_name, "NCrvSet");
    assert_eq!(count.name.snake_case, top.points[4].name.snake_case);
    assert!(count.block_indices.is_empty());
    for (inner, _) in &crv.repeating_children {
        assert!(top_names.contains(&inner.internal_name.as_str()));
        assert_eq!(inner.name.snake_case, top.points[3].name.snake_case);
        assert!(inner.block_indices.is_empty());
    }
}

#[test]
fn resolved_groups_copy_whole_subtrees() {
    let model = curve_model();
    let mut features = Vec::new();
    let top = resolve_top(&model, &mut features);
    let copy = top.copy();
    assert_eq!(copy.name.snake_case, top.name.snake_case);
    assert_eq!(copy.static_size, top.static_size);
    assert_eq!(copy.points.len(), top.points.len());
    assert_eq!(copy.enums.len(), top.enums.len());
    let crv = &copy.repeating_children[0].1;
    assert_eq!(crv.repeating_children.len(), 2);
    assert_eq!(crv.repeating_children[1].1.name.pascal_case, "MayTripCurveMayTripCurvePoints");
    assert_eq!(crv.repeating_children[1].1.points[1].point_type.rust_type, "u32");
}

#[test]
fn clashing_names_fall_back_then_take_suffixes() {
    let model = SunspecModel {
        group: group(
            "M",
            Some("Meter"),
            GroupCount::Integer(1),
            vec![
                labelled("A", "X", PointType::Uint16, 1, PointAccess::R),
                labelled("B", "X", PointType::Uint16, 1, PointAccess::R),
                labelled("C", "Y", PointType::Uint16, 1, PointAccess::R),
                labelled("C", "Y", PointType::Uint16, 1, PointAccess::R),
                labelled("N", "Count", PointType::Uint16, 1, PointAccess::R),
            ],
            vec![
                group("G", Some("Block"), GroupCount::String("N".to_string()), vec![], vec![]),
                group("H", Some("Block"), GroupCount::String("N".to_string()), vec![], vec![]),
            ],
        ),
    };
    let resolved = resolve_model(&model, "model_9".to_string());
    let names: Vec<(&str, &str)> = resolved
        .group
        .points
        .iter()
        .map(|p| (p.name.snake_case.as_str(), p.name.pascal_case.as_str()))
        .collect();
    assert_eq!(names, vec![("a", "A"), ("b", "B"), ("c", "C"), ("c_2", "C2"), ("count", "Count")]);
    let g0 = &resolved.group.repeating_children[0].1;
    let g1 = &resolved.group.repeating_children[1].1;
    assert_eq!(g0.name.snake_case, "block");
    assert_eq!(g1.name.snake_case, "block_2");
    assert_eq!(g1.name.pascal_case, "Block2");
    // Count points follow the top-level point they read.
    assert_eq!(resolved.group.repeating_children[0].0.name.snake_case, "count");
}

#[test]
fn name_tables_deduplicate_in_registration_order() {
    let mut table = NameTable::new();
    table.register(Name::new("x".to_string(), "X".to_string()), ("a".to_string(), "A".to_string()));
    table.register(Name::new("x".to_string(), "X".to_string()), ("a".to_string(), "A".to_string()));
    table.register_unique(Name::new("a_2".to_string(), "Other".to_string()));
    table.register_unique(Name::new("y".to_string(), "Y".to_string()));
    table.deduplicate();
    let names: Vec<(&str, &str)> = table
        .entries
        .iter()
        .map(|e| (e.name.snake_case.as_str(), e.name.pascal_case.as_str()))
        .collect();
    assert_eq!(names, vec![("a", "A"), ("a_2", "A2"), ("a_2_2", "Other2"), ("y", "Y")]);
    assert_eq!(table.entries[0].fallback.as_ref().unwrap().snake_case, "a");
}

#[test]
fn named_items_give_both_spellings() {
    let model = curve_model();
    let resolved = resolve_model(&model, "model_708".to_string());
    assert_eq!(resolved.name_snake_case(), "model_708");
    assert_eq!(resolved.name_pascal_case(), "Model708");
    assert_eq!(resolved.group.enums[0].name_snake_case(), "ena");
    assert_eq!(resolved.group.enums[0].name_pascal_case(), "Ena");
    assert_eq!(resolved.group.points[2].name_snake_case(), "der_trip_hv_module_enable");
    assert_eq!(resolved.group.name_pascal_case(), "DerTripHv");
}

#[test]
fn listed_points_are_own_then_fixed_subgroups() {
    let model = curve_model();
    let mut features = Vec::new();
    let top = resolve_top(&model, &mut features);
    let crv = &top.repeating_children[0].1;
    let names: Vec<&str> = crv.points.iter().map(|p| p.internal_name.as_str()).collect();
    assert_eq!(names, vec!["ReadOnly", "ActPt", "ActPt"]);
    assert_eq!(crv.static_size, crv.points.iter().map(|p| p.size).sum::<u16>());
}

#[test]
fn writable_only_through_read_write_points() {
    let model = SunspecModel {
        group: group(
            "M",
            None,
            GroupCount::Integer(1),
            vec![point("N", PointType::Uint16, 1)],
            vec![group(
                "G",
                None,
                GroupCount::String("N".to_string()),
                vec![point("R", PointType::Uint16, 1)],
                vec![group(
                    "H",
                    None,
                    GroupCount::String("N".to_string()),
                    vec![labelled("W", "W", PointType::Uint16, 1, PointAccess::Rw)],
                    vec![],
                )],
            )],
        ),
    };
    let mut features = Vec::new();
    let top = resolve_top(&model, &mut features);
    let g = &top.repeating_children[0].1;
    assert!(top.writable && g.writable && g.repeating_children[0].1.writable);
    let mut read_only = model;
    read_only.group.groups[0].groups[0].points[0].access = PointAccess::R;
    let top = resolve_top(&read_only, &mut features);
    assert!(!top.writable);
}

#[test]
fn string_feature_follows_string_points_in_the_tree() {
    let model = SunspecModel {
        group: group(
            "M",
            None,
            GroupCount::Integer(1),
            vec![point("N", PointType::Uint16, 1)],
            vec![group(
                "F",
                None,
                GroupCount::Integer(1),
                vec![],
                vec![group(
                    "G",
                    None,
                    GroupCount::String("N".to_string()),
                    vec![point("S", PointType::String, 2)],
                    vec![],
                )],
            )],
        ),
    };
    let mut features = Vec::new();
    let top = resolve_top(&model, &mut features);
    let g = &top.repeating_children[0].1;
    assert_eq!(g.points[0].point_type.cast_from_c, Some(CastFromC::String));
    assert_eq!(features, vec![CodegenFeature::String]);
}

#[test]
fn cloned_groups_and_enum_copies_keep_their_names() {
    let model = curve_model();
    let resolved = resolve_model(&model, "model_708".to_string());
    let copy = resolved.group.clone();
    assert_eq!(copy.name.snake_case, "der_trip_hv");
    assert_eq!(copy.repeating_children.len(), 1);
    let crv = &copy.repeating_children[0].1;
    assert_eq!(crv.enums[0].name.snake_case, resolved.group.enums[1].name.snake_case);
    assert_eq!(crv.enums[0].name.pascal_case, "ReadOnly");
}
