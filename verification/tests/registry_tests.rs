use nadi_core::registry::{
    func_doc, function_row, short_help, signature, FuncArg, FuncArgType, NadiFunctions, PluginFunctions,
};

type Reg = NadiFunctions<&'static str, &'static str, &'static str>;

#[test]
fn registry_finds_full_and_short_names() {
    let mut r: Reg = NadiFunctions::new();
    assert_eq!(r.register_node_function("attrs", "load".to_string(), "f1"), None);
    assert_eq!(r.node("attrs.load"), Some(&"f1"));
    assert_eq!(r.node("load"), Some(&"f1"));
    assert_eq!(r.node("other.load"), None);
    assert_eq!(r.node("missing"), None);
    assert_eq!(r.network("load"), None);
}

#[test]
fn registry_later_short_name_wins_and_warns() {
    let mut r: Reg = NadiFunctions::new();
    r.register_env_function("a", "count".to_string(), "fa");
    let warn = r.register_env_function("b", "count".to_string(), "fb");
    assert_eq!(warn, Some("a.count".to_string()));
    assert_eq!(r.env("count"), Some(&"fb"));
    assert_eq!(r.env("a.count"), Some(&"fa"));
    assert_eq!(r.env("b.count"), Some(&"fb"));
    // registering the same full name again gives no warning
    assert_eq!(r.register_env_function("b", "count".to_string(), "fc"), None);
    assert_eq!(r.env("count"), Some(&"fc"));
}

#[test]
fn registry_lists_plugin_functions() {
    let mut r: Reg = NadiFunctions::new();
    r.register_node_function("p", "x".to_string(), "n1");
    r.register_network_function("p", "y".to_string(), "w1");
    r.register_env_function("q", "z".to_string(), "e1");
    let plugins = r.plugins();
    assert_eq!(plugins.len(), 2);
    let p = plugins.get("p").unwrap();
    assert_eq!(p.node(), &vec!["x".to_string()]);
    assert_eq!(p.network(), &vec!["y".to_string()]);
    assert!(p.env().is_empty());
    let q = plugins.get("q").unwrap();
    assert_eq!(q.env(), &vec!["z".to_string()]);
}

#[test]
fn plugin_functions_builders() {
    let p = PluginFunctions::default()
        .with_node("a".to_string())
        .with_node("b".to_string())
        .with_env("c".to_string());
    assert_eq!(p.node(), &vec!["a".to_string(), "b".to_string()]);
    assert_eq!(p.env(), &vec!["c".to_string()]);
    assert!(p.network().is_empty());
}

#[test]
fn function_rows_plain_and_linked() {
    assert_eq!(
        function_row("attrs.load", "node", "Loads attrs", false),
        vec!["attrs", "load", "Loads attrs"]
    );
    assert_eq!(
        function_row("attrs.load", "node", "Loads attrs", true),
        vec!["[`attrs`](attrs.md)", "[`load`](attrs.md#node.load)", "Loads attrs"]
    );
    assert_eq!(
        function_row("plain", "env", "h", false),
        vec!["null", "plain", "h"]
    );
}

#[test]
fn list_functions_markdown() {
    let mut r: Reg = NadiFunctions::new();
    r.register_env_function("core", "echo".to_string(), "e");
    let (node, net, env) = r.list_functions_md(false, &vec![], &vec![], &vec!["Print".to_string()]);
    assert_eq!(
        env,
        "| Plugin | Function | Help  |\n|:-------|:---------|:------|\n| core   | echo     | Print |\n"
    );
    assert_eq!(node, "| Plugin | Function | Help |\n|:-------|:---------|:-----|\n");
    assert_eq!(net, node);
}

#[test]
fn argument_texts_and_signature() {
    let args = vec![
        FuncArg {
            name: "x".to_string(),
            ty: "i64".to_string(),
            help: "".to_string(),
            category: FuncArgType::Arg,
        },
        FuncArg {
            name: "y".to_string(),
            ty: "bool".to_string(),
            help: "".to_string(),
            category: FuncArgType::DefArg("true".to_string()),
        },
        FuncArg {
            name: "rest".to_string(),
            ty: "".to_string(),
            help: "".to_string(),
            category: FuncArgType::Args,
        },
        FuncArg {
            name: "kw".to_string(),
            ty: "".to_string(),
            help: "".to_string(),
            category: FuncArgType::KwArgs,
        },
    ];
    assert_eq!(args[0].to_string(), "x: 'i64'");
    assert_eq!(args[1].to_string(), "y: 'bool' = true");
    assert_eq!(signature(&args), "x: 'i64', y: 'bool' = true, *rest, **kw");
    assert_eq!(signature(&vec![]), "");
}

#[test]
fn short_help_is_first_trimmed_line() {
    assert_eq!(short_help("  Load the file\nMore text\n"), "Load the file");
    assert_eq!(short_help("\n\n single "), "single");
    assert_eq!(short_help(""), "");
}

#[test]
fn function_doc_section() {
    let args = vec![FuncArg {
        name: "x".to_string(),
        ty: "i64".to_string(),
        help: "the value".to_string(),
        category: FuncArgType::Arg,
    }];
    let d = func_doc("node", "core", "f", &args, "Does f\n# Notes\nmore");
    assert_eq!(
        d,
        "## f {#node.f}\n```sig\nnode core.f(x: 'i64')\n```\n\n### Arguments\n- `x: 'i64'` => the value\n\nDoes f\n### Notes\nmore\n"
    );
}

#[test]
fn listed_links_point_at_the_function_sections() {
    let mut r: Reg = NadiFunctions::new();
    r.register_node_function("core", "n".to_string(), "n");
    r.register_network_function("core", "w".to_string(), "w");
    let (node, net, _) = r.list_functions_md(true, &vec!["N".to_string()], &vec!["W".to_string()], &vec![]);
    assert!(node.contains("(core.md#node.n)"));
    assert!(net.contains("(core.md#network.w)"));
}
