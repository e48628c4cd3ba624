use wgpu_3dgs_editor::selection::SelectionExpr;
use wgpu_3dgs_editor::shader::selection::build_dispatcher_source;

#[test]
fn builders_and_classifiers_partition_the_variants() {
    let identity = SelectionExpr::identity();
    assert!(identity.is_identity());
    assert!(!identity.is_operation());
    assert!(!identity.is_primitive());
    assert!(!identity.is_custom());
    assert!(!identity.is_buffer());

    let buffer = SelectionExpr::buffer(3);
    assert!(buffer.is_buffer());
    assert!(!buffer.is_operation());
    assert!(!buffer.is_custom());

    let union = SelectionExpr::buffer(0).union(SelectionExpr::buffer(1));
    assert!(union.is_primitive());
    assert!(union.is_operation());
    assert!(!union.is_custom());

    let complement = SelectionExpr::buffer(0).complement();
    assert!(complement.is_primitive());

    let unary = SelectionExpr::buffer(0).unary(2, vec![7, 9]);
    assert!(unary.is_custom());
    assert!(unary.is_operation());
    assert!(!unary.is_primitive());

    let selection = SelectionExpr::selection(0, vec![]);
    assert!(selection.is_custom());

    let default = SelectionExpr::default();
    assert!(default.is_identity());
}

#[test]
fn op_codes_match_the_fixed_assignment() {
    assert_eq!(SelectionExpr::CUSTOM_OP_START, 5);
    let a = || SelectionExpr::buffer(0);
    let b = || SelectionExpr::buffer(1);
    assert_eq!(a().union(b()).as_u32(), Some(0));
    assert_eq!(a().intersection(b()).as_u32(), Some(1));
    assert_eq!(a().difference(b()).as_u32(), Some(2));
    assert_eq!(a().symmetric_difference(b()).as_u32(), Some(3));
    assert_eq!(a().complement().as_u32(), Some(4));
    assert_eq!(a().unary(0, vec![]).as_u32(), Some(5));
    assert_eq!(a().binary(2, b(), vec![]).as_u32(), Some(7));
    assert_eq!(SelectionExpr::selection(4, vec![]).as_u32(), Some(9));
    assert_eq!(SelectionExpr::identity().as_u32(), None);
    assert_eq!(a().as_u32(), None);
}

#[test]
fn custom_accessors_return_index_and_bind_groups() {
    let unary = SelectionExpr::buffer(0).unary(2, vec![7, 9]);
    assert_eq!(unary.custom_op_index(), Some(2));
    assert_eq!(unary.custom_bind_groups(), Some(&vec![7, 9]));
    let (op, groups) = unary.custom_op_index_and_bind_groups().expect("custom node");
    assert_eq!(op, 2);
    assert_eq!(groups, &vec![7, 9]);

    let selection = SelectionExpr::selection(1, vec![4]);
    assert_eq!(selection.custom_op_index(), Some(1));
    assert_eq!(selection.custom_bind_groups(), Some(&vec![4]));

    let binary = SelectionExpr::buffer(0).binary(3, SelectionExpr::buffer(1), vec![]);
    assert_eq!(binary.custom_op_index(), Some(3));

    let union = SelectionExpr::buffer(0).union(SelectionExpr::buffer(1));
    assert_eq!(union.custom_op_index(), None);
    assert_eq!(union.custom_bind_groups(), None);
    assert!(union.custom_op_index_and_bind_groups().is_none());
}

#[test]
fn dispatcher_source_splices_snippets_into_op_code_branches() {
    let snippets = vec![
        String::from("        atomicOr(&dest[i / 32u], 1u << (i % 32u));\n"),
        String::from("        atomicAnd(&dest[i / 32u], ~(1u << (i % 32u)));\n"),
    ];
    let source = build_dispatcher_source(&snippets);
    let expected_branches = "    if op == 5u {\n        atomicOr(&dest[i / 32u], 1u << (i % 32u));\n    }\n    if op == 6u {\n        atomicAnd(&dest[i / 32u], ~(1u << (i % 32u)));\n    }\n}\n";
    assert!(source.ends_with(expected_branches));
    assert!(source.starts_with("@group(0) @binding(0)\nvar<uniform> op: u32;"));
    assert!(source.contains("@compute @workgroup_size(256)"));

    let empty = build_dispatcher_source(&vec![]);
    assert!(!empty.contains("if op =="));
    assert!(empty.ends_with("}\n"));

    // Two-digit op codes render in decimal.
    let many: Vec<String> = (0..7).map(|i| format!("        let v{i} = op;\n")).collect();
    let source = build_dispatcher_source(&many);
    assert!(source.contains("    if op == 11u {\n        let v6 = op;\n    }\n"));
}
