use nadi_core::attrs::{type_name_from_path, Attribute};
use nadi_core::functions::{FunctionCtx, FunctionRet, Propagation};

fn ctx() -> FunctionCtx {
    FunctionCtx::from_arg_kwarg(
        vec![Attribute::Integer(4), Attribute::Bool(true)],
        vec![
            ("name".to_string(), Attribute::String("river".to_string())),
            ("count".to_string(), Attribute::Integer(1)),
            ("count".to_string(), Attribute::Integer(7)),
        ],
    )
}

#[test]
fn ctx_positional_and_keyword_arguments() {
    let c = ctx();
    assert_eq!(c.args().len(), 2);
    assert!(matches!(c.arg(0), Some(Attribute::Integer(4))));
    assert!(c.arg(2).is_none());
    assert_eq!(c.kwargs().len(), 2);
    assert!(matches!(c.kwarg("count"), Some(Attribute::Integer(7))));
    assert!(c.kwarg("missing").is_none());
    assert!(matches!(c.propagation(), Propagation::Sequential));
}

#[test]
fn arg_kwarg_prefers_the_keyword() {
    let c = ctx();
    let v: Option<Result<i64, String>> = c.arg_kwarg(0, "count");
    assert_eq!(v, Some(Ok(7)));
    let v: Option<Result<i64, String>> = c.arg_kwarg(0, "other");
    assert_eq!(v, Some(Ok(4)));
    let v: Option<Result<i64, String>> = c.arg_kwarg(5, "other");
    assert_eq!(v, None);
}

#[test]
fn arg_kwarg_wrong_type_message() {
    let c = ctx();
    let v: Option<Result<i64, String>> = c.arg_kwarg(1, "flag");
    assert_eq!(
        v,
        Some(Err(
            "Argument 2 (flag [i64]): Incorrect Type: got Bool instead of i64".to_string()
        ))
    );
    let v: Option<Result<i64, String>> = c.arg_kwarg(11, "name");
    assert_eq!(
        v,
        Some(Err(
            "Argument 12 (name [i64]): Incorrect Type: got String instead of i64".to_string()
        ))
    );
}

#[test]
fn arg_kwarg_relaxed_converts() {
    let c = ctx();
    let v: Option<Result<bool, String>> = c.arg_kwarg_relaxed(0, "x");
    assert_eq!(v, Some(Ok(true)));
    let v: Option<Result<String, String>> = c.arg_kwarg_relaxed(0, "name");
    assert_eq!(v, Some(Ok("river".to_string())));
}

#[test]
fn function_ret_as_result() {
    assert!(matches!(FunctionRet::Empty.res(), Ok(None)));
    assert!(matches!(
        FunctionRet::Value(Attribute::Integer(3)).res(),
        Ok(Some(Attribute::Integer(3)))
    ));
    assert_eq!(
        FunctionRet::Error("bad".to_string()).res().unwrap_err(),
        "bad"
    );
    assert!(matches!(FunctionRet::default(), FunctionRet::Empty));
}

#[test]
fn short_type_names() {
    assert_eq!(type_name_from_path("i64"), "i64");
    assert_eq!(type_name_from_path("alloc::string::String"), "String");
    assert_eq!(
        type_name_from_path("alloc::vec::Vec<alloc::string::String>"),
        "Vec<String>"
    );
    assert_eq!(
        type_name_from_path("core::option::Option<(i64, std::path::PathBuf)>"),
        "Option<(i64,PathBuf)>"
    );
    assert_eq!(type_name_from_path(""), "");
}
