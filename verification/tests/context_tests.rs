use nadi_core::attrs::{AttrMap, Attribute};
use nadi_core::functions::{FunctionCtx, FunctionRet, Propagation};
use nadi_core::registry::NadiFunctions;
use nadi_core::tasks::{env_result, FunctionCall, TaskInput};

/// `double(x)` gives twice its integer argument; `nothing()` gives no
/// value; `fail()` gives an error.
enum Env {
    Double,
    Nothing,
    Fail,
}

type Fns = NadiFunctions<Env, (), ()>;

fn funcs() -> Fns {
    let mut f = Fns::new();
    f.register_env_function("core", "double".to_string(), Env::Double);
    f.register_env_function("core", "nothing".to_string(), Env::Nothing);
    f.register_env_function("core", "fail".to_string(), Env::Fail);
    f
}

fn run(f: &Env, ctx: &FunctionCtx) -> FunctionRet {
    match f {
        Env::Double => match ctx.arg(0) {
            Some(Attribute::Integer(i)) => FunctionRet::Value(Attribute::Integer(2 * i)),
            _ => FunctionRet::Error("double needs an integer".to_string()),
        },
        Env::Nothing => FunctionRet::Empty,
        Env::Fail => FunctionRet::Error("it failed".to_string()),
    }
}

fn attrs() -> AttrMap {
    let mut inner = AttrMap::new();
    inner.insert("b".to_string(), Attribute::Integer(5));
    let mut m = AttrMap::new();
    m.insert("a".to_string(), Attribute::Table(inner));
    m.insert("name".to_string(), Attribute::String("x".to_string()));
    m
}

fn call(name: &str, args: Vec<TaskInput>) -> FunctionCall {
    let mut fc = FunctionCall::new(name.to_string());
    for a in args {
        fc.push_arg(a);
    }
    fc
}

#[test]
fn context_reads_literals_and_variables() {
    let mut fc = call(
        "f",
        vec![
            TaskInput::Literal(Attribute::Integer(1)),
            TaskInput::Variable("a.b".to_string()),
        ],
    );
    fc.set_kwarg("k".to_string(), TaskInput::Variable("name".to_string()));
    let ctx = fc.context(&attrs(), &funcs(), &run, &Propagation::Inverse).unwrap();
    assert_eq!(ctx.args.len(), 2);
    assert!(matches!(ctx.args[0], Attribute::Integer(1)));
    assert!(matches!(ctx.args[1], Attribute::Integer(5)));
    assert!(matches!(ctx.kwargs.get("k"), Some(Attribute::String(s)) if s == "x"));
    assert!(matches!(ctx.propagation, Propagation::Inverse));
}

#[test]
fn context_calls_environment_functions() {
    let inner = call("double", vec![TaskInput::Variable("a.b".to_string())]);
    let fc = call("f", vec![TaskInput::Function(inner)]);
    let ctx = fc.context(&attrs(), &funcs(), &run, &Propagation::Sequential).unwrap();
    assert!(matches!(ctx.args[0], Attribute::Integer(10)));
}

#[test]
fn context_missing_variable_is_an_error() {
    let fc = call("f", vec![TaskInput::Variable("zzz".to_string())]);
    let e = fc.context(&attrs(), &funcs(), &run, &Propagation::Sequential).unwrap_err();
    assert_eq!(e, "Attribute zzz not found");
}

#[test]
fn context_dotted_name_through_a_value_is_an_error() {
    let fc = call("f", vec![TaskInput::Variable("name.x".to_string())]);
    let e = fc.context(&attrs(), &funcs(), &run, &Propagation::Sequential).unwrap_err();
    assert_eq!(e, "Attribute name is not a table");
}

#[test]
fn context_empty_input_is_an_error() {
    let fc = call("f", vec![TaskInput::Empty]);
    let e = fc.context(&attrs(), &funcs(), &run, &Propagation::Sequential).unwrap_err();
    assert_eq!(e, "Invalid output");
}

#[test]
fn context_first_error_wins() {
    let fc = call(
        "f",
        vec![
            TaskInput::Variable("missing1".to_string()),
            TaskInput::Variable("missing2".to_string()),
        ],
    );
    let e = fc.context(&attrs(), &funcs(), &run, &Propagation::Sequential).unwrap_err();
    assert_eq!(e, "Attribute missing1 not found");
}

#[test]
fn env_results_become_values_or_messages() {
    assert!(matches!(
        env_result("g", Some(FunctionRet::Value(Attribute::Bool(true)))),
        Ok(Attribute::Bool(true))
    ));
    assert_eq!(
        env_result("g", Some(FunctionRet::Empty)).unwrap_err(),
        "Function g returned no value"
    );
    assert_eq!(
        env_result("g", None).unwrap_err(),
        "Environment Function g not found"
    );
    assert_eq!(
        env_result("g", Some(FunctionRet::Error("bad".to_string()))).unwrap_err(),
        "bad"
    );
}

#[test]
fn context_environment_errors() {
    let fc = call("f", vec![TaskInput::Function(call("nothing", vec![]))]);
    assert_eq!(
        fc.context(&attrs(), &funcs(), &run, &Propagation::Sequential).unwrap_err(),
        "Function nothing returned no value"
    );
    let fc = call("f", vec![TaskInput::Function(call("nope", vec![]))]);
    assert_eq!(
        fc.context(&attrs(), &funcs(), &run, &Propagation::Sequential).unwrap_err(),
        "Environment Function nope not found"
    );
    let fc = call("f", vec![TaskInput::Function(call("fail", vec![]))]);
    assert_eq!(
        fc.context(&attrs(), &funcs(), &run, &Propagation::Sequential).unwrap_err(),
        "it failed"
    );
}

#[test]
fn context_full_function_names_are_called() {
    let inner = call("core.double", vec![TaskInput::Literal(Attribute::Integer(3))]);
    let fc = call("f", vec![TaskInput::Function(inner)]);
    let ctx = fc.context(&attrs(), &funcs(), &run, &Propagation::Sequential).unwrap();
    assert!(matches!(ctx.args[0], Attribute::Integer(6)));
}

#[test]
fn context_missing_function_is_found_before_its_arguments() {
    let inner = call("nope", vec![TaskInput::Variable("zzz".to_string())]);
    let fc = call("f", vec![TaskInput::Function(inner)]);
    assert_eq!(
        fc.context(&attrs(), &funcs(), &run, &Propagation::Sequential).unwrap_err(),
        "Environment Function nope not found"
    );
}

#[test]
fn context_error_before_a_call_comes_first() {
    let fc = call(
        "f",
        vec![
            TaskInput::Variable("zzz".to_string()),
            TaskInput::Function(call("fail", vec![])),
        ],
    );
    assert_eq!(
        fc.context(&attrs(), &funcs(), &run, &Propagation::Sequential).unwrap_err(),
        "Attribute zzz not found"
    );
}

#[test]
fn context_keyword_calls_give_values() {
    let mut fc = call("f", vec![]);
    fc.set_kwarg(
        "x".to_string(),
        TaskInput::Function(call("double", vec![TaskInput::Variable("a.b".to_string())])),
    );
    let ctx = fc.context(&attrs(), &funcs(), &run, &Propagation::Sequential).unwrap();
    assert!(matches!(ctx.kwargs.get("x"), Some(Attribute::Integer(10))));
}
