//! Filters on fields.

use smeltr::breakdown::{ModuleBreakdown, OpAttribution};
use smeltr::commands::breakdown::{
    apply_filters, collect_filters, field_error_message, folded_stacks, parse_field_kv,
    parse_group_by, prune_by_field_filter, show, split_field_kv, FieldError, Shown,
};
use smeltr::event::FieldValue;
use smeltr::op_tables::{kernels_fit, OpGroupBy};

/// Reads a filter, with the double that its value reads as.
fn parse(s: &str) -> Result<(String, FieldValue), FieldError> {
    let float = match split_field_kv(s) {
        Ok((_, v)) => v.parse::<f64>().ok().map(|f| f.to_bits()),
        Err(_) => None,
    };
    parse_field_kv(s, float)
}


#[test]
fn parse_field_kv_infers_types() {
    assert_eq!(
        parse("step=5").unwrap(),
        ("step".to_string(), FieldValue::Int(5))
    );
    assert_eq!(
        parse("sigma=0.5").unwrap(),
        ("sigma".to_string(), FieldValue::Float(0.5f64.to_bits()))
    );
    assert_eq!(
        parse("flag=true").unwrap(),
        ("flag".to_string(), FieldValue::Bool(true))
    );
    assert_eq!(
        parse("name=ltx2").unwrap(),
        ("name".to_string(), FieldValue::String("ltx2".into()))
    );
}

#[test]
fn parse_field_kv_rejects_malformed() {
    assert!(parse("no-equals-sign").is_err());
    assert!(parse("=novalue").is_err());
}

/// A value is floating point only with a point or an exponent.
#[test]
fn floats_have_a_point_or_an_exponent() {
    let value = |s: &str| parse(s).unwrap().1;
    assert_eq!(value("x=1e3"), FieldValue::Float(1e3f64.to_bits()));
    assert_eq!(value("x=-2.5E1"), FieldValue::Float((-25f64).to_bits()));
    assert_eq!(value("x=nan"), FieldValue::String("nan".into()));
    assert_eq!(value("x=inf"), FieldValue::String("inf".into()));
    assert_eq!(
        value("x=99999999999999999999"),
        FieldValue::String("99999999999999999999".into())
    );
    assert_eq!(value("x=-7"), FieldValue::Int(-7));
    assert_eq!(value("x=False"), FieldValue::Bool(false));
    assert_eq!(value(" key = a=b "), FieldValue::String("a=b".into()));
    assert_eq!(value("x="), FieldValue::String(String::new()));
}

#[test]
fn malformed_filters_are_told() {
    assert_eq!(parse("a\"b").unwrap_err(), FieldError::NoValue);
    assert_eq!(
        field_error_message(FieldError::NoValue, "a\"b"),
        "expected key=value, got \"a\\\"b\""
    );
    assert_eq!(parse(" =1").unwrap_err(), FieldError::EmptyKey);
    assert_eq!(
        field_error_message(FieldError::EmptyKey, " =1"),
        "empty key in \" =1\""
    );
    assert_eq!(parse_group_by("name"), Some(OpGroupBy::Name));
    assert_eq!(parse_group_by("kind"), Some(OpGroupBy::Kind));
    assert_eq!(parse_group_by("Kind"), None);
}

/// Of several filters on a key the last counts.
#[test]
fn last_filter_counts() {
    let list: Vec<(String, FieldValue)> = ["a=1", "b=x", "a=2"]
        .iter()
        .map(|s| parse(s).unwrap())
        .collect();
    assert_eq!(
        collect_filters(&list),
        vec![
            ("a".to_string(), FieldValue::Int(2)),
            ("b".to_string(), FieldValue::String("x".into())),
        ]
    );
    assert!(collect_filters(&vec![]).is_empty());
}

fn node(name: &str, ns: u64, fields: &[&str], children: Vec<ModuleBreakdown>) -> ModuleBreakdown {
    ModuleBreakdown {
        qualname: name.into(),
        class_name: String::new(),
        calls: 1,
        gpu_ns_self: ns,
        gpu_ns_subtree: ns + children.iter().map(|c| c.gpu_ns_subtree).sum::<u64>(),
        eval_count: 0,
        cb_count: 0,
        children,
        ops: vec![],
        diagnostics: None,
        fields: fields.iter().map(|s| parse(s).unwrap()).collect(),
    }
}

fn tree() -> ModuleBreakdown {
    node(
        "root",
        0,
        &[],
        vec![
            node(
                "a",
                5,
                &["step=1"],
                vec![node("a1", 2, &["step=2"], vec![]), node("a2", 0, &[], vec![])],
            ),
            node("b", 7, &["step=2", "flag=true"], vec![]),
            node("c", 9, &[], vec![]),
        ],
    )
}

/// What holds every value stays, with what is above it. Pruning again changes
/// nothing.
#[test]
fn pruning_twice_is_pruning_once() {
    let names = |n: &ModuleBreakdown| -> Vec<String> {
        n.children.iter().map(|c| c.qualname.clone()).collect()
    };
    let filter = vec![parse("step=2").unwrap()];
    let mut t = tree();
    assert!(prune_by_field_filter(&mut t, &filter));
    assert_eq!(names(&t), vec!["a", "b"]);
    assert_eq!(names(&t.children[0]), vec!["a1"]);
    let mut again = tree();
    prune_by_field_filter(&mut again, &filter);
    prune_by_field_filter(&mut again, &filter);
    assert_eq!(again, t);
    let mut none = tree();
    assert!(!prune_by_field_filter(&mut none, &vec![parse("x=1").unwrap()]));
    assert!(none.children.is_empty());
    let mut all = tree();
    apply_filters(&mut all, &vec![]);
    assert_eq!(all, tree());
    apply_filters(&mut all, &filter);
    assert_eq!(all, t);
    // Zero has two signs, and what is no number equals nothing.
    let mut zero = node("r", 0, &[], vec![node("z", 1, &["x=0.0"], vec![])]);
    assert!(prune_by_field_filter(&mut zero, &vec![parse("x=-0.0").unwrap()]));
    assert_eq!(zero.children.len(), 1);
}

#[test]
fn stacks_are_folded() {
    assert_eq!(folded_stacks(&tree()), "a 5\na;a1 2\nb 7\nc 9");
    assert_eq!(folded_stacks(&node("root", 9, &[], vec![])), "");
}

#[test]
fn trees_are_shown() {
    let mut t = tree();
    t.children[1].ops = vec![OpAttribution {
        name: "K_1".into(),
        gpu_ns: 7,
        count: 1,
        symbol: Some("gemm_x".into()),
        kind: Some("Matmul".into()),
    }];
    assert!(kernels_fit(&t, OpGroupBy::Kind));
    let mut shown = Shown {
        top: 20,
        depth: 6,
        top_ops: 5,
        no_ops: false,
        ops_flat: false,
        group_by: OpGroupBy::Kind,
    };
    assert!(show(&t, shown).contains("K_1") || show(&t, shown).contains("gemm_x"));
    shown.no_ops = true;
    assert!(!show(&t, shown).contains("gemm_x"));
    shown.ops_flat = true;
    assert!(show(&t, shown).contains("Matmul"));
    assert!(show(&t, shown).ends_with('\n'));
    t.children[0].ops = vec![
        OpAttribution { gpu_ns: u64::MAX, ..Default::default() },
        OpAttribution { gpu_ns: 1, ..Default::default() },
    ];
    assert!(!kernels_fit(&t, OpGroupBy::Kind));
}
