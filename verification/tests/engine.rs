use gamesheet_core::errors::SheetError;
use gamesheet_core::sheet::Sheet;
use gamesheet_core::stack::Stack;

fn sheet_of(prelude: &str, entries: &[(&str, &str)]) -> Sheet {
    let entries: Vec<(String, String)> = entries
        .iter()
        .map(|(n, s)| (n.to_string(), s.to_string()))
        .collect();
    Sheet::parse(prelude.to_string(), entries).expect("parse sheet")
}

fn float_of(sheet: &mut Sheet, name: &str) -> f64 {
    sheet.eval(name).expect("eval").as_float().expect("float")
}

#[test]
fn cache_idempotence() {
    let mut sheet = sheet_of("", &[("base", "3.0"), ("twice", "g(\"base\") * 2.0")]);
    assert_eq!(sheet.eval_count(), 0);
    let first = float_of(&mut sheet, "twice");
    let runs_after_first = sheet.eval_count();
    assert!(runs_after_first >= 1);
    // repeated evaluation returns the same value without re-invoking the
    // evaluator
    let second = float_of(&mut sheet, "twice");
    assert_eq!(first, second);
    assert_eq!(sheet.eval_count(), runs_after_first);
    let third = float_of(&mut sheet, "twice");
    assert_eq!(first, third);
    assert_eq!(sheet.eval_count(), runs_after_first);
}

#[test]
fn invalidation_correctness() {
    let mut sheet = sheet_of("", &[("base", "3.0"), ("twice", "g(\"base\") * 2.0")]);
    assert_eq!(float_of(&mut sheet, "twice"), 6.0);
    sheet
        .insert_entry("base", "5.0".to_string())
        .expect("replace base");
    // the dependent reflects the new value, not the cached old one
    assert_eq!(float_of(&mut sheet, "base"), 5.0);
    assert_eq!(float_of(&mut sheet, "twice"), 10.0);
}

#[test]
fn transitive_invalidation() {
    let mut sheet = sheet_of(
        "",
        &[
            ("c", "1.0"),
            ("b", "g(\"c\") * 2.0"),
            ("a", "g(\"b\") + 1.0"),
        ],
    );
    assert_eq!(float_of(&mut sheet, "a"), 3.0);
    assert_eq!(float_of(&mut sheet, "b"), 2.0);
    sheet.insert_entry("c", "2.0".to_string()).expect("new c");
    // both the direct and the transitive consumer observe the update
    assert_eq!(float_of(&mut sheet, "b"), 4.0);
    assert_eq!(float_of(&mut sheet, "a"), 5.0);
}

#[test]
fn explicit_invalidation_reruns_the_evaluator() {
    let mut sheet = sheet_of("", &[("base", "3.0")]);
    let _ = float_of(&mut sheet, "base");
    let runs = sheet.eval_count();
    sheet
        .invalidate_cache("base", &Vec::new())
        .expect("invalidate");
    let _ = float_of(&mut sheet, "base");
    assert_eq!(sheet.eval_count(), runs + 1);
}

#[test]
fn cycle_rejection() {
    let mut sheet = sheet_of("", &[("a", "g(\"b\")"), ("b", "g(\"a\")")]);
    assert!(sheet.check_for_cycles("a"));
    assert!(sheet.check_for_cycles("b"));
    match sheet.eval("a") {
        Err(SheetError::CyclicDependency(n)) => assert_eq!(n, "a"),
        other => panic!("expected a cyclic-dependency error, got {other:?}"),
    }
    // a self-referencing entry is a cycle as well
    let mut looped = sheet_of("", &[("x", "g(\"x\")")]);
    assert!(matches!(
        looped.eval("x"),
        Err(SheetError::CyclicDependency(_))
    ));
    // inserting an entry that closes a cycle reports it at the insert
    let mut closing = sheet_of("", &[("p", "1.0"), ("q", "g(\"p\")")]);
    assert!(matches!(
        closing.insert_entry("p", "g(\"q\")".to_string()),
        Err(SheetError::CyclicDependency(_))
    ));
}

#[test]
fn layer_override() {
    let low = sheet_of("", &[("x", "1.0"), ("only_low", "10.0")]);
    let high = sheet_of("", &[("x", "g(\"y\")"), ("y", "2.0")]);
    let mut stack = Stack::new();
    stack.push_layer(low);
    stack.push_layer(high);
    // the higher layer wins for evaluation
    assert_eq!(
        stack.eval("x").expect("eval x").as_float().unwrap(),
        2.0
    );
    // unique names fall through to the layer that defines them
    assert_eq!(
        stack
            .eval("only_low")
            .expect("eval only_low")
            .as_float()
            .unwrap(),
        10.0
    );
    // dependency queries resolve against the highest defining layer
    assert_eq!(stack.dependencies("x"), vec!["y".to_string()]);
    assert_eq!(stack.dependents("y"), vec!["x".to_string()]);
    assert!(stack.dependencies("unknown").is_empty());
    // enumeration is the deduplicated union of every layer
    let mut names = stack.entries();
    names.sort();
    assert_eq!(
        names,
        vec!["only_low".to_string(), "x".to_string(), "y".to_string()]
    );
    assert!(!stack.check_for_cycles("x"));
}

#[test]
fn stack_invalidation_reaches_low_layers() {
    let low = sheet_of("", &[("x", "1.0")]);
    let high = sheet_of("", &[("other", "3.0")]);
    let mut stack = Stack::new();
    stack.push_layer(low);
    stack.push_layer(high);
    assert_eq!(stack.eval("x").unwrap().as_float().unwrap(), 1.0);
    stack
        .invalidate_cache("x", &Vec::new())
        .expect("invalidate every layer");
    assert_eq!(stack.eval("x").unwrap().as_float().unwrap(), 1.0);
}

#[test]
fn missing_dependency() {
    let entries = vec![("a".to_string(), "g(\"nope\")".to_string())];
    match Sheet::parse(String::new(), entries) {
        Err(SheetError::BadDependency(d)) => assert_eq!(d, "nope"),
        other => panic!("expected a missing-dependency error, got {other:?}"),
    }
    // requesting an unknown entry fails the same way
    let mut sheet = sheet_of("", &[("a", "1.0")]);
    assert!(matches!(
        sheet.eval("nope"),
        Err(SheetError::BadDependency(_))
    ));
}

#[test]
fn round_trip() {
    let mut sheet = sheet_of(
        "fn seven_times(x) { x * 7.0 }",
        &[
            ("constant", "7.0"),
            ("function", "g(\"constant\") * 2.0"),
            ("prelude", "seven_times(g(\"constant\"))"),
        ],
    );
    let (prelude, entries) = sheet.document();
    let mut reparsed = Sheet::parse(prelude, entries).expect("reparse document");
    let mut names = sheet.entries();
    let mut reparsed_names = reparsed.entries();
    names.sort();
    reparsed_names.sort();
    assert_eq!(names, reparsed_names);
    for name in names {
        assert_eq!(
            sheet.get_source(&name).unwrap(),
            reparsed.get_source(&name).unwrap()
        );
        assert_eq!(
            sheet.dependencies(&name),
            reparsed.dependencies(&name)
        );
        assert_eq!(float_of(&mut sheet, &name), float_of(&mut reparsed, &name));
    }
}

#[test]
fn bad_script_is_rejected_without_damage() {
    let mut sheet = sheet_of("", &[("a", "1.0")]);
    match sheet.insert_entry("a", "fn {".to_string()) {
        Err(SheetError::BadScript(_)) => {}
        other => panic!("expected a script-compile error, got {other:?}"),
    }
    // the prior entry is untouched
    assert_eq!(sheet.get_source("a").unwrap(), "1.0");
    assert_eq!(float_of(&mut sheet, "a"), 1.0);
    // a bad prelude leaves the previous prelude active
    assert!(matches!(
        sheet.insert_prelude("fn {".to_string()),
        Err(SheetError::BadScript(_))
    ));
    assert_eq!(float_of(&mut sheet, "a"), 1.0);
    // construction fails entirely on a bad script
    assert!(matches!(
        Sheet::parse(String::new(), vec![("x".to_string(), "fn {".to_string())]),
        Err(SheetError::BadScript(_))
    ));
}

#[test]
fn evaluation_failure_is_propagated_and_not_cached() {
    let mut sheet = sheet_of("", &[("boom", "no_such_function(1.0)")]);
    assert!(matches!(sheet.eval("boom"), Err(SheetError::EvalFailure(_))));
    let runs = sheet.eval_count();
    // nothing was cached: evaluating again runs the evaluator again
    assert!(matches!(sheet.eval("boom"), Err(SheetError::EvalFailure(_))));
    assert_eq!(sheet.eval_count(), runs + 1);
}

#[test]
fn prelude_replacement_invalidates_everything() {
    let mut sheet = sheet_of(
        "fn helper(x) { x + 1.0 }",
        &[("a", "helper(1.0)"), ("b", "2.0")],
    );
    assert_eq!(float_of(&mut sheet, "a"), 2.0);
    assert_eq!(float_of(&mut sheet, "b"), 2.0);
    sheet
        .insert_prelude("fn helper(x) { x + 10.0 }".to_string())
        .expect("new prelude");
    // every entry observes the new prelude, not a stale cached value
    assert_eq!(float_of(&mut sheet, "a"), 11.0);
    assert_eq!(float_of(&mut sheet, "b"), 2.0);
    // rebuilding the prelude clears the cache too
    let runs = sheet.eval_count();
    sheet.build_prelude().expect("rebuild prelude");
    assert_eq!(float_of(&mut sheet, "b"), 2.0);
    assert_eq!(sheet.eval_count(), runs + 1);
}

#[test]
fn dependency_extraction_is_static_only() {
    let mut sheet = sheet_of(
        "",
        &[("a", "1.0"), ("b", "g(\"a\") + 2.0"), ("c", "4.0")],
    );
    assert_eq!(sheet.dependencies("b"), vec!["a".to_string()]);
    assert!(sheet.dependencies("a").is_empty());
    assert_eq!(sheet.dependents("a"), vec!["b".to_string()]);
    assert!(sheet.dependents("c").is_empty());
    let mut names = sheet.entries();
    names.sort();
    assert_eq!(
        names,
        vec!["a".to_string(), "b".to_string(), "c".to_string()]
    );
    // build_entry re-extracts dependencies and invalidates the entry
    assert_eq!(float_of(&mut sheet, "b"), 3.0);
    sheet.build_entry("b").expect("rebuild entry");
    let runs = sheet.eval_count();
    assert_eq!(float_of(&mut sheet, "b"), 3.0);
    assert_eq!(sheet.eval_count(), runs + 1);
    // rebuilding an unknown entry is a no-op
    sheet.build_entry("unknown").expect("no-op rebuild");
}

#[test]
fn nested_sequences_and_integers_evaluate() {
    let mut sheet = sheet_of("", &[("list", "[1, [2, 3], true]"), ("int", "41 + 1")]);
    let value = sheet.eval("list").expect("eval list");
    let array = value.into_array().expect("array");
    assert_eq!(array.len(), 3);
    assert_eq!(array[0].as_int().unwrap(), 1);
    assert!(array[2].as_bool().unwrap());
    assert_eq!(sheet.eval("int").unwrap().as_int().unwrap(), 42);
}

#[test]
fn stack_cycle_spans_layers() {
    // the combined relation resolves each name against its highest defining
    // layer; a cycle may only exist across layers. A reference to a name the
    // sheet itself does not define can only be introduced after
    // construction, since parsing validates the dependencies.
    let mut low = sheet_of("", &[]);
    low.insert_entry("a", "g(\"b\") + 0.0".to_string())
        .expect("insert dangling reference");
    let mut high = sheet_of("", &[]);
    high.insert_entry("b", "g(\"a\") + 0.0".to_string())
        .expect("insert dangling reference");
    let mut stack = Stack::new();
    stack.push_layer(low);
    stack.push_layer(high);
    assert!(stack.check_for_cycles("a"));
    assert!(stack.check_for_cycles("b"));
}

#[test]
fn stack_override_can_remove_a_cycle() {
    let low = sheet_of("", &[("x", "g(\"x\")")]);
    let high = sheet_of("", &[("x", "1.0")]);
    let mut with_cycle = Stack::new();
    with_cycle.push_layer(sheet_of("", &[("x", "g(\"x\")")]));
    assert!(with_cycle.check_for_cycles("x"));
    let mut stack = Stack::new();
    stack.push_layer(low);
    stack.push_layer(high);
    // the override hides the self-referencing script entirely
    assert!(!stack.check_for_cycles("x"));
    assert_eq!(stack.eval("x").unwrap().as_float().unwrap(), 1.0);
}

#[test]
fn runaway_script_is_cut_off() {
    // the evaluator runs under an operations limit: a script that never
    // finishes fails with a runtime error instead of hanging
    let mut sheet = sheet_of("", &[("spin", "while true {}")]);
    assert!(matches!(sheet.eval("spin"), Err(SheetError::EvalFailure(_))));
}

#[test]
fn extended_builtins_evaluate() {
    let mut sheet = sheet_of(
        "",
        &[
            ("root", "sqrt(16.0)"),
            ("text", "\"aa\" + \"bb\""),
            ("logic", "if 3 < 4 { 1.0 } else { 2.0 }"),
        ],
    );
    assert_eq!(float_of(&mut sheet, "root"), 4.0);
    assert_eq!(sheet.eval("text").unwrap().into_string().unwrap(), "aabb");
    assert_eq!(float_of(&mut sheet, "logic"), 1.0);
}
