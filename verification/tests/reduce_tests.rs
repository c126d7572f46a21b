use quorum_diff::{
    deep_equal, diff_and_common_multiple, diff_and_common_multiple_bounded, DiffError, Mapping,
    Quorum, Value,
};
use std::borrow::Cow;

fn label(s: &str) -> Value {
    Value::String(s.to_string())
}

fn decimal_of(s: &str) -> Value {
    Value::Real(s.to_string())
}

fn map_of(entries: Vec<(&str, Value)>) -> Value {
    let mut m = Mapping::new();
    for (key, value) in entries {
        m.insert(key.to_string(), value);
    }
    Value::Mapping(m)
}

fn quorum(numerator: u64, denominator: u64) -> Quorum {
    Quorum::new(numerator, denominator).expect("a fraction above zero and at most one")
}

fn reduce(inputs: &[Value], q: Quorum) -> (Option<Value>, Vec<Option<Value>>) {
    let refs: Vec<&Value> = inputs.iter().collect();
    let (base, diffs) = diff_and_common_multiple(&refs, q);
    (
        base.map(|b| b.into_owned()),
        diffs.into_iter().map(|d| d.map(|v| v.into_owned())).collect(),
    )
}

fn expect_slot(found: &Option<Value>, expected: Option<Value>) {
    match (found, &expected) {
        (None, None) => {}
        (Some(f), Some(e)) => assert!(deep_equal(f, e), "found {:?}, expected {:?}", f, e),
        _ => panic!("found {:?}, expected {:?}", found, expected),
    }
}

fn expect_reduction(
    found: (Option<Value>, Vec<Option<Value>>),
    base: Option<Value>,
    diffs: Vec<Option<Value>>,
) {
    expect_slot(&found.0, base);
    assert_eq!(found.1.len(), diffs.len());
    for (f, e) in found.1.iter().zip(diffs.into_iter()) {
        expect_slot(f, e);
    }
}

#[test]
fn reducing_nothing_gives_nothing() {
    for q in [quorum(1, 1), quorum(1, 2), quorum(1, 1000), quorum(6, 10)] {
        let (base, diffs) = reduce(&[], q);
        assert!(base.is_none());
        assert!(diffs.is_empty());
    }
}

#[test]
fn equal_scalars_under_the_full_quorum_are_the_base() {
    let samples = vec![
        Value::Int(4),
        label("x"),
        Value::Bool(true),
        decimal_of("2.5"),
        Value::Null,
    ];
    for sample in samples {
        for n in 1..5usize {
            let inputs: Vec<Value> = (0..n).map(|_| sample.clone()).collect();
            let found = reduce(&inputs, quorum(1, 1));
            expect_reduction(found, Some(sample.clone()), (0..n).map(|_| None).collect());
        }
    }
}

#[test]
fn scalars_without_a_quorum_have_no_base() {
    let inputs = vec![Value::Int(1), Value::Int(2), Value::Int(3)];
    let found = reduce(&inputs, quorum(2, 3));
    expect_reduction(
        found,
        None,
        vec![Some(Value::Int(1)), Some(Value::Int(2)), Some(Value::Int(3))],
    );
    let inputs = vec![label("a"), label("a"), label("b")];
    let found = reduce(&inputs, quorum(1, 1));
    expect_reduction(found, None, vec![Some(label("a")), Some(label("a")), Some(label("b"))]);
}

#[test]
fn a_scalar_that_meets_the_quorum_is_the_base() {
    let inputs = vec![Value::Int(2), Value::Int(3), Value::Int(2)];
    let found = reduce(&inputs, quorum(6, 10));
    expect_reduction(found, Some(Value::Int(2)), vec![None, Some(Value::Int(3)), None]);
}

#[test]
fn the_first_value_in_input_order_that_meets_the_quorum_wins() {
    let inputs = vec![Value::Int(1), Value::Int(2), Value::Int(2), Value::Int(1)];
    let found = reduce(&inputs, quorum(1, 2));
    expect_reduction(
        found,
        Some(Value::Int(1)),
        vec![None, Some(Value::Int(2)), Some(Value::Int(2)), None],
    );
    let inputs = vec![Value::Int(3), Value::Int(2), Value::Int(2), Value::Int(1)];
    let found = reduce(&inputs, quorum(1, 2));
    expect_reduction(
        found,
        Some(Value::Int(2)),
        vec![Some(Value::Int(3)), None, None, Some(Value::Int(1))],
    );
    let inputs = vec![Value::Int(7), Value::Int(8), Value::Int(9)];
    let found = reduce(&inputs, quorum(1, 3));
    expect_reduction(
        found,
        Some(Value::Int(7)),
        vec![None, Some(Value::Int(8)), Some(Value::Int(9))],
    );
}

#[test]
fn mixed_kinds_have_no_base_and_stand_verbatim() {
    let inputs = vec![Value::Int(1), Value::Null, label("x"), Value::Null];
    let found = reduce(&inputs, quorum(1, 4));
    expect_reduction(found, None, vec![Some(Value::Int(1)), None, Some(label("x")), None]);
    let inputs = vec![map_of(vec![("a", Value::Int(1))]), Value::Array(vec![Value::Int(1)])];
    let found = reduce(&inputs, quorum(1, 2));
    expect_reduction(found, None, vec![Some(inputs[0].clone()), Some(inputs[1].clone())]);
}

#[test]
fn type_mismatch_scenario() {
    let inputs = vec![Value::Int(1), label("x"), decimal_of("1.0")];
    let found = reduce(&inputs, quorum(1, 1));
    expect_reduction(
        found,
        None,
        vec![Some(Value::Int(1)), Some(label("x")), Some(decimal_of("1.0"))],
    );
}

#[test]
fn concrete_scenario_of_three_mappings() {
    let inputs = vec![
        map_of(vec![("a", Value::Int(1)), ("b", Value::Int(2))]),
        map_of(vec![("a", Value::Int(1)), ("b", Value::Int(3))]),
        map_of(vec![("a", Value::Int(1)), ("b", Value::Int(2))]),
    ];
    let q = quorum(6, 10);
    assert_eq!(q.count_for(3), 2);
    let found = reduce(&inputs, q);
    expect_reduction(
        found,
        Some(map_of(vec![("a", Value::Int(1)), ("b", Value::Int(2))])),
        vec![None, Some(map_of(vec![("b", Value::Int(3))])), None],
    );
}

#[test]
fn arrays_are_never_merged() {
    let a = Value::Array(vec![Value::Int(1), Value::Int(2)]);
    let inputs = vec![a.clone(), a.clone(), a.clone()];
    let found = reduce(&inputs, quorum(1, 3));
    expect_reduction(found, None, vec![Some(a.clone()), Some(a.clone()), Some(a.clone())]);
    let inputs = vec![
        map_of(vec![("list", a.clone())]),
        map_of(vec![("list", a.clone())]),
    ];
    let found = reduce(&inputs, quorum(1, 1));
    expect_reduction(found, None, vec![Some(inputs[0].clone()), Some(inputs[1].clone())]);
}

#[test]
fn a_missing_key_counts_as_null() {
    let inputs = vec![
        map_of(vec![("a", Value::Int(1)), ("b", Value::Int(5))]),
        map_of(vec![("a", Value::Int(1))]),
        map_of(vec![("a", Value::Int(1))]),
    ];
    // the column of b is [5, Null, Null]: mixed kinds, so no base under b
    let found = reduce(&inputs, quorum(1, 2));
    expect_reduction(
        found,
        Some(map_of(vec![("a", Value::Int(1))])),
        vec![Some(map_of(vec![("b", Value::Int(5))])), None, None],
    );
}

#[test]
fn a_key_that_holds_null_everywhere_has_null_as_its_base() {
    let inputs = vec![
        map_of(vec![("a", Value::Null)]),
        map_of(vec![("a", Value::Null)]),
    ];
    let found = reduce(&inputs, quorum(1, 1));
    expect_reduction(found, Some(map_of(vec![("a", Value::Null)])), vec![None, None]);
}

#[test]
fn mappings_without_any_agreement_have_no_base() {
    let inputs = vec![
        map_of(vec![("a", Value::Int(1))]),
        map_of(vec![("a", Value::Int(2))]),
        map_of(vec![("b", label("x"))]),
    ];
    let found = reduce(&inputs, quorum(2, 3));
    expect_reduction(
        found,
        None,
        vec![
            Some(map_of(vec![("a", Value::Int(1))])),
            Some(map_of(vec![("a", Value::Int(2))])),
            Some(map_of(vec![("b", label("x"))])),
        ],
    );
}

#[test]
fn empty_mappings_have_neither_base_nor_differences() {
    let inputs = vec![map_of(vec![]), map_of(vec![]), map_of(vec![])];
    let found = reduce(&inputs, quorum(1, 1));
    expect_reduction(found, None, vec![None, None, None]);
}

#[test]
fn nested_mappings_are_reduced_key_by_key() {
    let inputs = vec![
        map_of(vec![
            ("image", map_of(vec![("tag", label("v1")), ("repo", label("r"))])),
            ("replicas", Value::Int(2)),
        ]),
        map_of(vec![
            ("image", map_of(vec![("tag", label("v2")), ("repo", label("r"))])),
            ("replicas", Value::Int(2)),
        ]),
        map_of(vec![
            ("image", map_of(vec![("tag", label("v1")), ("repo", label("r"))])),
            ("replicas", Value::Int(3)),
            ("extra", Value::Bool(true)),
        ]),
    ];
    let found = reduce(&inputs, quorum(2, 3));
    expect_reduction(
        found,
        Some(map_of(vec![
            ("image", map_of(vec![("tag", label("v1")), ("repo", label("r"))])),
            ("replicas", Value::Int(2)),
        ])),
        vec![
            None,
            Some(map_of(vec![("image", map_of(vec![("tag", label("v2"))]))])),
            Some(map_of(vec![("replicas", Value::Int(3)), ("extra", Value::Bool(true))])),
        ],
    );
}

#[test]
fn the_count_is_that_of_the_top_level_at_every_depth() {
    // two of three must agree, at the top and under every key
    let inputs = vec![
        map_of(vec![("m", map_of(vec![("k", Value::Int(1))]))]),
        map_of(vec![("m", map_of(vec![("k", Value::Int(1))]))]),
        map_of(vec![("m", map_of(vec![("k", Value::Int(2))]))]),
    ];
    let found = reduce(&inputs, quorum(2, 3));
    expect_reduction(
        found,
        Some(map_of(vec![("m", map_of(vec![("k", Value::Int(1))]))])),
        vec![None, None, Some(map_of(vec![("m", map_of(vec![("k", Value::Int(2))]))]))],
    );
    let found = reduce(&inputs, quorum(1, 1));
    expect_reduction(
        found,
        None,
        vec![
            Some(inputs[0].clone()),
            Some(inputs[1].clone()),
            Some(inputs[2].clone()),
        ],
    );
}

#[test]
fn a_key_missing_in_a_nested_mapping_makes_its_column_mixed() {
    let inputs = vec![
        map_of(vec![("m", map_of(vec![("k", Value::Int(1))]))]),
        map_of(vec![("m", map_of(vec![("k", Value::Int(1))]))]),
        map_of(vec![("m", map_of(vec![("other", Value::Int(9))]))]),
    ];
    // the column of k is [1, 1, Null]: kinds differ, so there is no base
    let found = reduce(&inputs, quorum(2, 3));
    expect_reduction(
        found,
        None,
        vec![
            Some(inputs[0].clone()),
            Some(inputs[1].clone()),
            Some(inputs[2].clone()),
        ],
    );
}

#[test]
fn a_single_input_is_its_own_base() {
    let input = map_of(vec![("a", Value::Int(1)), ("b", map_of(vec![("c", label("d"))]))]);
    let found = reduce(&[input.clone()], quorum(1, 1));
    expect_reduction(found, Some(input), vec![None]);
    let found = reduce(&[Value::Int(5)], quorum(1, 2));
    expect_reduction(found, Some(Value::Int(5)), vec![None]);
}

#[test]
fn there_is_one_slot_per_input_in_input_order() {
    let inputs = vec![
        Value::Int(10),
        Value::Int(20),
        Value::Int(10),
        Value::Int(30),
        Value::Int(10),
    ];
    let (base, diffs) = reduce(&inputs, quorum(3, 5));
    expect_slot(&base, Some(Value::Int(10)));
    assert_eq!(diffs.len(), inputs.len());
    expect_slot(&diffs[1], Some(Value::Int(20)));
    expect_slot(&diffs[3], Some(Value::Int(30)));
    assert!(diffs[0].is_none() && diffs[2].is_none() && diffs[4].is_none());
}

#[test]
fn scalars_are_handed_back_by_reference_and_mappings_as_new_values() {
    let inputs = vec![Value::Int(1), Value::Int(1), Value::Int(2)];
    let refs: Vec<&Value> = inputs.iter().collect();
    let (base, diffs) = diff_and_common_multiple(&refs, quorum(1, 2));
    match base {
        Some(Cow::Borrowed(b)) => assert!(std::ptr::eq(b, &inputs[0])),
        other => panic!("expected a borrowed base, found {:?}", other),
    }
    match &diffs[2] {
        Some(Cow::Borrowed(d)) => assert!(std::ptr::eq(*d, &inputs[2])),
        other => panic!("expected a borrowed difference, found {:?}", other),
    }

    let inputs = vec![
        map_of(vec![("a", Value::Int(1))]),
        map_of(vec![("a", Value::Int(1)), ("b", Value::Int(2))]),
    ];
    let refs: Vec<&Value> = inputs.iter().collect();
    let (base, diffs) = diff_and_common_multiple(&refs, quorum(1, 1));
    assert!(matches!(base, Some(Cow::Owned(_))));
    assert!(diffs[0].is_none());
    assert!(matches!(diffs[1], Some(Cow::Owned(_))));
}

#[test]
fn reduction_does_not_change_its_inputs() {
    let inputs = vec![
        map_of(vec![("a", Value::Int(1)), ("b", Value::Array(vec![Value::Null]))]),
        map_of(vec![("a", Value::Int(2))]),
    ];
    let before: Vec<Value> = inputs.clone();
    let _ = reduce(&inputs, quorum(1, 2));
    for (now, then) in inputs.iter().zip(before.iter()) {
        assert!(deep_equal(now, then));
    }
}

#[test]
fn bounded_reduction_agrees_within_the_bound() {
    let inputs = vec![
        map_of(vec![("a", Value::Int(1)), ("b", Value::Int(2))]),
        map_of(vec![("a", Value::Int(1)), ("b", Value::Int(3))]),
        map_of(vec![("a", Value::Int(1)), ("b", Value::Int(2))]),
    ];
    let refs: Vec<&Value> = inputs.iter().collect();
    let (base, diffs) =
        diff_and_common_multiple_bounded(&refs, quorum(6, 10), 1).expect("depth 1 fits");
    let found = (
        base.map(|b| b.into_owned()),
        diffs.into_iter().map(|d| d.map(|v| v.into_owned())).collect(),
    );
    expect_reduction(
        found,
        Some(map_of(vec![("a", Value::Int(1)), ("b", Value::Int(2))])),
        vec![None, Some(map_of(vec![("b", Value::Int(3))])), None],
    );
    let none: Vec<&Value> = Vec::new();
    assert!(diff_and_common_multiple_bounded(&none, quorum(1, 1), 0).is_ok());
}

#[test]
fn bounded_reduction_refuses_an_input_that_is_too_deep() {
    let deep = map_of(vec![("a", map_of(vec![("b", Value::Array(vec![Value::Int(1)]))]))]);
    let flat = Value::Int(1);
    let refs = vec![&flat, &deep];
    assert_eq!(
        diff_and_common_multiple_bounded(&refs, quorum(1, 1), 2).err(),
        Some(DiffError::ResourceExhausted)
    );
    assert!(diff_and_common_multiple_bounded(&refs, quorum(1, 1), 3).is_ok());
    let refs = vec![&deep, &flat];
    assert_eq!(
        diff_and_common_multiple_bounded(&refs, quorum(1, 1), 0).err(),
        Some(DiffError::ResourceExhausted)
    );
}
