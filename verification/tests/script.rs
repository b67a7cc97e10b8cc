use chip_game::script::{is_missing_hook, map_optional_function_result, script_result};
use rhai::{Engine, Scope};

#[test]
fn missing_optional_hook_is_not_an_error() {
    let engine = Engine::new();
    let ast = engine.compile("fn setup() { 1 } fn render() { undefined_helper() }").unwrap();
    let mut scope = Scope::new();

    let missing = engine.call_fn::<i64>(&mut scope, &ast, "update", ());
    assert!(map_optional_function_result(script_result(missing), "update").is_none());

    let present = engine.call_fn::<i64>(&mut scope, &ast, "setup", ());
    assert!(matches!(map_optional_function_result(script_result(present), "setup"), Some(Ok(1))));

    let failing = engine.call_fn::<()>(&mut scope, &ast, "render", ());
    assert!(matches!(map_optional_function_result(script_result(failing), "render"), Some(Err(_))));
}

#[test]
fn hook_names() {
    assert!(is_missing_hook(&Some("update".to_string()), "update"));
    assert!(!is_missing_hook(&Some("render".to_string()), "update"));
    assert!(!is_missing_hook(&None, "update"));
}

#[test]
fn script_errors_name_the_missing_function() {
    let engine = Engine::new();
    let ast = engine.compile("fn helper() { 1 }").unwrap();
    let mut scope = Scope::new();
    let missing = script_result(engine.call_fn::<i64>(&mut scope, &ast, "absent", ()));
    match missing {
        Err(e) => assert!(e.missing_function.as_deref().map_or(false, |f| f.starts_with("absent"))),
        Ok(_) => panic!("the call cannot succeed"),
    }
}
