use scriptsheet::scripts::{eval_error_message, wrap_script, CellStep, EvalError, Scripts};

fn sheet_with(keys: &[&str]) -> Scripts {
    let mut s = Scripts::default();
    for k in keys {
        s.add_script(k.to_string());
    }
    s
}

/// What the window does with a `Run` step: run the compiled script for the row.
fn run(engine: &rhai::Engine, s: &Scripts, key: &str, row: usize) -> f64 {
    let ast = s.script(key).unwrap().ast.clone().unwrap();
    engine
        .call_fn::<f64>(&mut rhai::Scope::new(), &ast, "run", (row as f64,))
        .unwrap()
}

#[test]
fn wrap_script_puts_text_in_run_function() {
    assert_eq!(wrap_script("row * 2.0"), "fn run(row) {\nrow * 2.0\n}");
    assert_eq!(wrap_script(""), "fn run(row) {\n\n}");
}

#[test]
fn keys_come_in_increasing_order() {
    let s = sheet_with(&["b", "a", "c", "ab"]);
    assert_eq!(s.key_count(), 4);
    assert_eq!(s.nth_key(0).as_deref(), Some("a"));
    assert_eq!(s.nth_key(1).as_deref(), Some("ab"));
    assert_eq!(s.nth_key(2).as_deref(), Some("b"));
    assert_eq!(s.nth_key(3).as_deref(), Some("c"));
    assert_eq!(s.nth_key(4), None);
}

#[test]
fn key_order_is_bytewise_like_btreemap() {
    let keys = ["Z", "a", "é", "ä", "B", "zz", ""];
    let s = sheet_with(&keys);
    let mut sorted: Vec<String> = keys.iter().map(|k| k.to_string()).collect();
    sorted.sort();
    let listed: Vec<String> = (0..s.key_count()).map(|i| s.nth_key(i).unwrap()).collect();
    assert_eq!(listed, sorted);
}

#[test]
fn add_contains_remove() {
    let mut s = sheet_with(&["x"]);
    assert!(s.contains_key("x"));
    assert!(!s.contains_key("y"));
    s.remove_script("x");
    assert!(!s.contains_key("x"));
    assert_eq!(s.key_count(), 0);
    s.remove_script("x");
    assert_eq!(s.key_count(), 0);
}

#[test]
fn add_script_replaces_existing_text() {
    let mut s = sheet_with(&["x"]);
    assert!(s.edit_script("x", "1.0".to_string()));
    assert_eq!(s.script("x").unwrap().text, "1.0");
    s.add_script("x".to_string());
    assert_eq!(s.script("x").unwrap().text, "");
    assert_eq!(s.key_count(), 1);
}

#[test]
fn edit_missing_script_changes_nothing() {
    let mut s = sheet_with(&["x"]);
    assert!(!s.edit_script("y", "2.0".to_string()));
    assert!(!s.contains_key("y"));
}

#[test]
fn rows_default_and_set() {
    let mut s = Scripts::default();
    assert_eq!(s.num_rows(), 101);
    assert!(s.set_num_rows(10));
    assert_eq!(s.num_rows(), 10);
    assert!(!s.set_num_rows(0));
    assert_eq!(s.num_rows(), 10);
}

#[test]
fn evaluates_cell_then_reuses_value() {
    let engine = rhai::Engine::new();
    let mut s = sheet_with(&["a"]);
    s.edit_script("a", "row * 2.0".to_string());
    match s.eval_one_begin(&engine, "a", 3) {
        Ok(CellStep::Run) => {}
        _ => panic!("expected a run step"),
    }
    assert!(s.script("a").unwrap().ast.is_some());
    let v = run(&engine, &s, "a", 3);
    assert_eq!(v, 6.0);
    s.eval_one_finish("a", 3, v.to_bits());
    assert_eq!(s.value("a", 3), Some(6.0f64.to_bits()));
    match s.eval_one_begin(&engine, "a", 3) {
        Ok(CellStep::Cached(bits)) => assert_eq!(f64::from_bits(bits), 6.0),
        _ => panic!("expected the cached value"),
    }
}

#[test]
fn dependency_loop_is_reported_with_chain() {
    let engine = rhai::Engine::new();
    let mut s = sheet_with(&["a", "b"]);
    assert!(matches!(s.eval_one_begin(&engine, "a", 0), Ok(CellStep::Run)));
    assert!(matches!(s.eval_one_begin(&engine, "b", 12), Ok(CellStep::Run)));
    match s.eval_one_begin(&engine, "a", 0) {
        Err(EvalError::DependencyLoop(m)) => {
            assert_eq!(m, "Encountered dependency loop (a, 0) -> (b, 12) -> (a, 0)")
        }
        _ => panic!("expected a dependency loop"),
    }
}

#[test]
fn row_out_of_range_is_reported() {
    let engine = rhai::Engine::new();
    let mut s = sheet_with(&["a"]);
    match s.eval_one_begin(&engine, "a", 500) {
        Err(EvalError::RowOutOfRange(m)) => {
            assert_eq!(m, "Row index 500 of \"a\" out of range [0,100]")
        }
        _ => panic!("expected an out of range error"),
    }
}

#[test]
fn missing_script_is_reported() {
    let engine = rhai::Engine::new();
    let mut s = sheet_with(&["a"]);
    match s.eval_one_begin(&engine, "zz", 0) {
        Err(EvalError::ScriptNotFound(k)) => assert_eq!(k, "zz"),
        _ => panic!("expected a missing script"),
    }
}

#[test]
fn parse_error_is_reported_and_script_stays_uncompiled() {
    let engine = rhai::Engine::new();
    let mut s = sheet_with(&["a"]);
    s.edit_script("a", "1 +".to_string());
    match s.eval_one_begin(&engine, "a", 0) {
        Err(EvalError::Parse(_)) => {}
        _ => panic!("expected a parse error"),
    }
    assert!(s.script("a").unwrap().ast.is_none());
}

#[test]
fn editing_a_script_drops_its_compiled_form() {
    let engine = rhai::Engine::new();
    let mut s = sheet_with(&["a"]);
    s.edit_script("a", "1.0".to_string());
    assert!(matches!(s.eval_one_begin(&engine, "a", 0), Ok(CellStep::Run)));
    assert!(s.script("a").unwrap().ast.is_some());
    s.edit_script("a", "2.0".to_string());
    assert!(s.script("a").unwrap().ast.is_none());
}

#[test]
fn evaluation_walks_rows_then_keys() {
    let mut s = sheet_with(&["b", "a"]);
    s.set_num_rows(2);
    let mut run = s.begin_eval();
    let mut cells = Vec::new();
    while let Some(c) = s.next_cell(&mut run) {
        cells.push(c);
    }
    assert_eq!(
        cells,
        vec![
            ("a".to_string(), 0),
            ("b".to_string(), 0),
            ("a".to_string(), 1),
            ("b".to_string(), 1)
        ]
    );
    assert_eq!(s.next_cell(&mut run), None);
}

#[test]
fn evaluation_without_keys_has_no_cells() {
    let mut s = Scripts::default();
    let mut run = s.begin_eval();
    assert_eq!(s.next_cell(&mut run), None);
}

#[test]
fn aborted_evaluation_restores_values() {
    let mut s = sheet_with(&["a"]);
    s.eval_one_finish("a", 1, 7);
    let run = s.begin_eval();
    assert_eq!(s.value("a", 1), None);
    s.eval_one_finish("a", 2, 9);
    s.abort_eval(run);
    assert_eq!(s.value("a", 1), Some(7));
    assert_eq!(s.value("a", 2), None);
}

#[test]
fn eval_error_message_names_cell() {
    assert_eq!(eval_error_message("a", 42, "boom"), "In a[42], boom");
}

#[test]
fn store_compiled_keeps_tree_or_reports_parse_error() {
    let engine = rhai::Engine::new();
    let mut s = sheet_with(&["x"]);
    assert!(s.edit_script("x", "row + 1.0".to_string()));

    let bad = engine.compile(wrap_script("row +")).map(|_| ());
    assert!(bad.is_err());
    let step = s.store_compiled("x", engine.compile(wrap_script("row +")));
    assert!(matches!(step, Err(EvalError::Parse(_))));
    assert!(s.script("x").unwrap().ast.is_none());

    let step = s.store_compiled("x", engine.compile(wrap_script("row + 1.0")));
    assert!(matches!(step, Ok(CellStep::Run)));
    assert_eq!(s.script("x").unwrap().text, "row + 1.0");
    assert_eq!(run(&engine, &s, "x", 4), 5.0);
}
