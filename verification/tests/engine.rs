use featruct::parse::{
    Declaration, ExpandError, FeatureDeclarations, FeatureName, FeaturesCompositionExpression,
    Span,
};
use featruct::summon::with_index::WithIndex;
use featruct::summon::{extract_fields, summon, Field, SummonError};

fn name(text: &str) -> FeatureName {
    FeatureName::new(text.to_string(), Span { start: 0, end: 0 })
}

fn unit(text: &str) -> Declaration {
    Declaration::Unit(name(text))
}

fn composite(text: &str, enables: &[&str], disables: &[&str]) -> Declaration {
    Declaration::Composition(
        name(text),
        FeaturesCompositionExpression {
            enables: enables.iter().map(|t| name(t)).collect(),
            disables: disables.iter().map(|t| name(t)).collect(),
        },
    )
}

fn texts(names: &[FeatureName]) -> Vec<String> {
    names.iter().map(|n| n.text.clone()).collect()
}

fn field(name_text: &str, ty: &str, tag: Option<&str>) -> Field {
    Field {
        name: name_text.to_string(),
        ty: ty.to_string(),
        feature: tag.map(name),
    }
}

#[test]
fn worked_example_combinations() {
    let decls = FeatureDeclarations::new(vec![
        unit("a"),
        unit("b"),
        unit("c"),
        composite("abc", &["a", "b", "c"], &[]),
    ])
    .unwrap();
    let combos = decls.combinations();
    assert_eq!(combos.len(), 7);
    let as_texts: Vec<Vec<String>> = combos.iter().map(|c| texts(c)).collect();
    assert_eq!(as_texts[0], vec!["a"]);
    assert_eq!(as_texts[1], vec!["b"]);
    assert_eq!(as_texts[2], vec!["a", "b"]);
    assert_eq!(as_texts[3], vec!["c"]);
    assert_eq!(as_texts[4], vec!["a", "c"]);
    assert_eq!(as_texts[5], vec!["b", "c"]);
    assert_eq!(as_texts[6], vec!["a", "b", "c", "abc"]);
    // only the full subset implies the composite
    for c in &as_texts[..6] {
        assert!(!c.contains(&"abc".to_string()));
    }
}

#[test]
fn worked_example_interfaces() {
    let decls = FeatureDeclarations::new(vec![
        unit("a"),
        unit("b"),
        unit("c"),
        composite("abc", &["a", "b", "c"], &[]),
    ])
    .unwrap();
    let fields = vec![
        field("common", "u8", None),
        field("a", "u8", Some("a")),
        field("b", "u8", Some("b")),
        field("c", "u8", Some("c")),
        field("abc", "u8", Some("abc")),
    ];
    let ifaces = summon(&decls, &fields).unwrap();
    assert_eq!(ifaces.len(), 5);
    assert_eq!(ifaces[0].name, "Common");
    assert_eq!(ifaces[0].accessors.len(), 1);
    assert_eq!(ifaces[0].accessors[0].getter, "common");
    assert_eq!(ifaces[0].accessors[0].mutator, "mut_common");
    assert_eq!(ifaces[0].accessors[0].ty, "u8");
    // interfaces are named from the ordinal in the index: a, b, c, abc
    assert_eq!(ifaces[1].name, "F0");
    assert_eq!(ifaces[2].name, "F1");
    assert_eq!(ifaces[3].name, "F2");
    assert_eq!(ifaces[4].name, "F3");
    assert_eq!(ifaces[4].accessors[0].getter, "abc");
    assert_eq!(ifaces[4].accessors[0].mutator, "mut_abc");
}

#[test]
fn two_cycle_fails_expansion() {
    let r = FeatureDeclarations::new(vec![
        composite("A", &["B"], &[]),
        composite("B", &["A"], &[]),
    ]);
    assert!(matches!(r, Err(ExpandError::UndeclaredFeature)));
}

#[test]
fn undeclared_reference_fails_expansion() {
    let r = FeatureDeclarations::new(vec![unit("a"), composite("k", &["z"], &[])]);
    assert!(matches!(r, Err(ExpandError::UndeclaredFeature)));
}

#[test]
fn expansion_is_idempotent() {
    let decls = FeatureDeclarations::new(vec![
        unit("a"),
        unit("b"),
        composite("ab", &["a", "b"], &[]),
    ])
    .unwrap();
    let again = decls.expand().unwrap();
    assert_eq!(texts(&again.units), texts(&decls.units));
    assert_eq!(again.compositions.len(), decls.compositions.len());
    for (before, after) in decls.compositions.iter().zip(again.compositions.iter()) {
        assert_eq!(after.0.text, before.0.text);
        assert_eq!(texts(&after.1.enables), texts(&before.1.enables));
        assert_eq!(texts(&after.1.disables), texts(&before.1.disables));
    }
}

#[test]
fn nested_composite_is_spliced() {
    let decls = FeatureDeclarations::new(vec![
        unit("a"),
        unit("b"),
        unit("c"),
        composite("ab", &["a", "b"], &[]),
        composite("abc", &["ab", "c"], &[]),
    ])
    .unwrap();
    let abc = decls
        .compositions
        .iter()
        .find(|(k, _)| k.text == "abc")
        .unwrap();
    assert_eq!(texts(&abc.1.enables), vec!["a", "b", "c"]);
    assert!(abc.1.disables.is_empty());
}

#[test]
fn disabling_a_composite_excludes_its_enables() {
    // disabling `ab` excludes every atomic feature `ab` requires
    let decls = FeatureDeclarations::new(vec![
        unit("a"),
        unit("b"),
        unit("c"),
        composite("ab", &["a", "b"], &[]),
        composite("x", &["c"], &["ab"]),
    ])
    .unwrap();
    let x = decls
        .compositions
        .iter()
        .find(|(k, _)| k.text == "x")
        .unwrap();
    assert_eq!(texts(&x.1.enables), vec!["c"]);
    assert_eq!(texts(&x.1.disables), vec!["a", "b"]);
    // so `x` is implied by {c} but by no subset containing a or b
    let combos = decls.combinations();
    for c in combos.iter().map(|c| texts(c)) {
        let has_a_or_b = c.contains(&"a".to_string()) || c.contains(&"b".to_string());
        let has_c = c.contains(&"c".to_string());
        assert_eq!(c.contains(&"x".to_string()), has_c && !has_a_or_b);
    }
}

#[test]
fn enumeration_count_without_composites() {
    let decls =
        FeatureDeclarations::new(vec![unit("a"), unit("b"), unit("c"), unit("d")]).unwrap();
    assert_eq!(decls.combinations().len(), 15);
}

#[test]
fn enumeration_of_empty_declarations() {
    let decls = FeatureDeclarations::new(vec![]).unwrap();
    assert_eq!(decls.combinations().len(), 0);
}

#[test]
fn duplicate_atomic_names_are_idempotent() {
    let decls = FeatureDeclarations::new(vec![unit("a"), unit("a"), unit("b")]).unwrap();
    assert_eq!(texts(&decls.units), vec!["a", "b"]);
    assert_eq!(decls.combinations().len(), 3);
}

#[test]
fn first_composite_definition_wins() {
    let decls = FeatureDeclarations::new(vec![
        unit("a"),
        unit("b"),
        composite("k", &["a"], &[]),
        composite("k", &["b"], &[]),
    ])
    .unwrap();
    assert_eq!(decls.compositions.len(), 1);
    assert_eq!(texts(&decls.compositions[0].1.enables), vec!["a"]);
}

#[test]
fn will_enabled_checks_both_lists() {
    let expr = FeaturesCompositionExpression {
        enables: vec![name("a"), name("b")],
        disables: vec![name("c")],
    };
    assert!(expr.will_enabled(&vec![name("a"), name("b")]));
    assert!(!expr.will_enabled(&vec![name("a")]));
    assert!(!expr.will_enabled(&vec![name("a"), name("b"), name("c")]));
    assert!(expr.will_enabled(&vec![name("b"), name("a"), name("d")]));
}

#[test]
fn partition_is_total_and_ordered() {
    let fields = vec![
        field("w", "u8", None),
        field("x", "u16", Some("p")),
        field("y", "u32", Some("q")),
        field("z", "u64", Some("p")),
        field("v", "i8", None),
    ];
    let (common, groups) = extract_fields(&fields);
    assert_eq!(common.len(), 2);
    assert_eq!(common[0].name, "w");
    assert_eq!(common[1].name, "v");
    assert_eq!(groups.len(), 2);
    assert_eq!(groups[0].0.text, "p");
    assert_eq!(groups[0].1.len(), 2);
    assert_eq!(groups[0].1[0].name, "x");
    assert_eq!(groups[0].1[1].name, "z");
    assert_eq!(groups[1].0.text, "q");
    assert_eq!(groups[1].1.len(), 1);
    let grouped: usize = groups.iter().map(|g| g.1.len()).sum();
    assert_eq!(common.len() + grouped, fields.len());
}

#[test]
fn generation_is_deterministic() {
    let make = || {
        let decls = FeatureDeclarations::new(vec![
            unit("a"),
            unit("b"),
            composite("ab", &["a", "b"], &[]),
        ])
        .unwrap();
        let fields = vec![
            field("base", "String", None),
            field("fa", "u8", Some("a")),
            field("fab", "bool", Some("ab")),
        ];
        summon(&decls, &fields).unwrap()
    };
    let first = make();
    let second = make();
    assert_eq!(first.len(), second.len());
    for (x, y) in first.iter().zip(second.iter()) {
        assert_eq!(x.name, y.name);
        assert_eq!(x.accessors.len(), y.accessors.len());
        for (p, q) in x.accessors.iter().zip(y.accessors.iter()) {
            assert_eq!(p.getter, q.getter);
            assert_eq!(p.mutator, q.mutator);
            assert_eq!(p.ty, q.ty);
        }
    }
}

#[test]
fn unknown_feature_tag_fails_generation() {
    let decls = FeatureDeclarations::new(vec![unit("a")]).unwrap();
    let fields = vec![field("x", "u8", Some("nope"))];
    match summon(&decls, &fields) {
        Err(SummonError::UnknownFeature { name: n }) => assert_eq!(n.text, "nope"),
        _ => panic!("expected an unknown-feature error"),
    }
}

#[test]
fn generation_without_fields_yields_base_interface() {
    let decls = FeatureDeclarations::new(vec![unit("a")]).unwrap();
    let ifaces = summon(&decls, &vec![]).unwrap();
    assert_eq!(ifaces.len(), 1);
    assert_eq!(ifaces[0].name, "Common");
    assert!(ifaces[0].accessors.is_empty());
}

#[test]
fn index_ordinals_render_in_decimal() {
    let names: Vec<FeatureName> = (0..12).map(|i| name(&format!("f{}", i))).collect();
    let index = WithIndex::new(names);
    assert_eq!(index.query(&name("f0")), Some(0));
    assert_eq!(index.query(&name("f11")), Some(11));
    assert_eq!(index.query(&name("zz")), None);
    assert_eq!(index.query_as_ident(&name("f0")).unwrap(), "F0");
    assert_eq!(index.query_as_ident(&name("f10")).unwrap(), "F10");
    assert_eq!(index.query_as_ident(&name("f11")).unwrap(), "F11");
    assert!(matches!(
        index.query_as_ident(&name("zz")),
        Err(SummonError::UnknownFeature { .. })
    ));
}

#[test]
fn expand_error_message() {
    let r = FeatureDeclarations::new(vec![composite("A", &["B"], &[]), composite("B", &["A"], &[])]);
    let e = r.err().unwrap();
    assert_eq!(e.message(), "UndeclaredFeature");
}

#[test]
fn span_is_kept_for_diagnostics() {
    let n = FeatureName::new("a".to_string(), Span { start: 3, end: 7 });
    assert_eq!(n.span(), Span { start: 3, end: 7 });
    assert!(n.same_name(&name("a")));
    assert!(!n.same_name(&name("b")));
}
