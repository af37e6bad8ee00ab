use nadi_core::attrs::{AttrMap, Attribute};
use nadi_core::functions::{FunctionRet, Propagation};
use nadi_core::network::{Network, StrPath};
use nadi_core::runner::{handle_func_response, run_env, run_network, run_nodes, TaskOutcome};
use nadi_core::tasks::TaskInput;

fn sample() -> Network {
    let paths = vec![
        StrPath::new("a".to_string(), "b".to_string()),
        StrPath::new("b".to_string(), "c".to_string()),
        StrPath::new("d".to_string(), "b".to_string()),
    ];
    Network::from_paths(&paths)
}

fn some(s: &str) -> Option<String> {
    Some(s.to_string())
}

#[test]
fn env_literal_then_show() {
    let mut env = AttrMap::new();
    let r = run_env(&mut env, &some("x"), &TaskInput::Literal(Attribute::Integer(3)));
    assert!(matches!(r, Ok(TaskOutcome::Nothing)));
    let r = run_env(&mut env, &some("x"), &TaskInput::Empty);
    assert!(matches!(r, Ok(TaskOutcome::Show(Attribute::Integer(3)))));
}

#[test]
fn env_missing_variable_is_an_error() {
    let mut env = AttrMap::new();
    let r = run_env(&mut env, &some("x"), &TaskInput::Empty);
    assert_eq!(r.unwrap_err(), "Env variable x doesn't exist");
}

#[test]
fn env_without_attribute_lists_all() {
    let mut env = AttrMap::new();
    env.insert("a".to_string(), Attribute::Bool(true));
    env.insert("b".to_string(), Attribute::Integer(2));
    match run_env(&mut env, &None, &TaskInput::Empty) {
        Ok(TaskOutcome::Listing(v)) => {
            assert_eq!(v.len(), 2);
            assert_eq!(v[0].0, "a");
            assert_eq!(v[1].0, "b");
            assert!(matches!(v[1].1, Attribute::Integer(2)));
        }
        _ => panic!("expected a listing"),
    }
}

#[test]
fn env_variable_copies_and_reports_the_change() {
    let mut env = AttrMap::new();
    env.insert("a".to_string(), Attribute::Integer(1));
    env.insert("b".to_string(), Attribute::Integer(2));
    let r = run_env(&mut env, &some("b"), &TaskInput::Variable("a".to_string()));
    assert!(matches!(r, Ok(TaskOutcome::Change(Attribute::Integer(2), Attribute::Integer(1)))));
    assert!(matches!(env.get("b"), Some(Attribute::Integer(1))));
    let r = run_env(&mut env, &some("c"), &TaskInput::Variable("zz".to_string()));
    assert_eq!(r.unwrap_err(), "Attribute not found c");
}

#[test]
fn network_set_show_and_replace() {
    let mut net = sample();
    let r = run_network(&mut net, &some("x"), &TaskInput::Literal(Attribute::Integer(5)));
    assert!(matches!(r, Ok(TaskOutcome::Nothing)));
    let r = run_network(&mut net, &some("x"), &TaskInput::Empty);
    assert!(matches!(r, Ok(TaskOutcome::Show(Attribute::Integer(5)))));
    let r = run_network(&mut net, &some("x"), &TaskInput::Literal(Attribute::Integer(6)));
    assert!(matches!(r, Ok(TaskOutcome::Change(Attribute::Integer(5), Attribute::Integer(6)))));
    let r = run_network(&mut net, &some("y"), &TaskInput::Empty);
    assert_eq!(r.unwrap_err(), "Attribute not found y");
}

#[test]
fn network_variable_without_attribute_is_an_error() {
    let mut net = sample();
    let r = run_network(&mut net, &None, &TaskInput::Variable("v".to_string()));
    assert_eq!(r.unwrap_err(), "Nothing to do, found variable v");
    let r = run_network(&mut net, &None, &TaskInput::Empty);
    assert!(matches!(r, Ok(TaskOutcome::Nothing)));
}

#[test]
fn nodes_set_everywhere_then_replace() {
    let mut net = sample();
    let p = Propagation::Sequential;
    let r = run_nodes(&mut net, &p, &some("x"), &TaskInput::Literal(Attribute::Integer(1)));
    assert!(matches!(r, Ok(TaskOutcome::Nothing)));
    for i in 0..net.nodes_count() {
        assert!(matches!(net.node(i).unwrap().attr("x"), Some(Attribute::Integer(1))));
    }
    match run_nodes(&mut net, &p, &some("x"), &TaskInput::Literal(Attribute::Integer(2))) {
        Ok(TaskOutcome::NodeChanges(ch)) => {
            assert_eq!(ch.len(), 4);
            for (k, c) in ch.iter().enumerate() {
                assert_eq!(c.0, net.node(k).unwrap().name());
                assert!(matches!(c.1, Attribute::Integer(1)));
                assert!(matches!(c.2, Attribute::Integer(2)));
            }
        }
        _ => panic!("expected changes"),
    }
}

#[test]
fn nodes_show_values_in_visiting_order() {
    let mut net = sample();
    let p = Propagation::List(vec!["c".to_string(), "a".to_string()]);
    match run_nodes(&mut net, &p, &some("NAME"), &TaskInput::Empty) {
        Ok(TaskOutcome::NodeValues(at, vals)) => {
            assert_eq!(at, "NAME");
            assert_eq!(vals.len(), 2);
            assert_eq!(vals[0].0, "c");
            assert!(matches!(&vals[0].1, Some(Attribute::String(s)) if s == "c"));
            assert_eq!(vals[1].0, "a");
        }
        _ => panic!("expected values"),
    }
    match run_nodes(&mut net, &p, &some("missing"), &TaskInput::Empty) {
        Ok(TaskOutcome::NodeValues(_, vals)) => {
            assert_eq!(vals.len(), 2);
            assert!(vals[0].1.is_none());
        }
        _ => panic!("expected values"),
    }
}

#[test]
fn nodes_variable_copies_each_nodes_own_value() {
    let mut net = sample();
    let p = Propagation::Sequential;
    let r = run_nodes(&mut net, &p, &some("label"), &TaskInput::Variable("NAME".to_string()));
    assert!(matches!(r, Ok(TaskOutcome::Nothing)));
    for i in 0..net.nodes_count() {
        let n = net.node(i).unwrap();
        assert!(matches!(n.attr("label"), Some(Attribute::String(s)) if s == n.name()));
    }
}

#[test]
fn nodes_missing_variable_stops_at_the_first_node() {
    let mut net = sample();
    let p = Propagation::Sequential;
    let first = net.node(0).unwrap().name().to_string();
    let r = run_nodes(&mut net, &p, &some("x"), &TaskInput::Variable("zz".to_string()));
    assert_eq!(r.unwrap_err(), format!("Node {}: Attribute zz not found", first));
    assert!(net.node(0).unwrap().attr("x").is_none());
}

#[test]
fn nodes_assignment_needs_an_attribute() {
    let mut net = sample();
    let p = Propagation::Inverse;
    let r = run_nodes(&mut net, &p, &None, &TaskInput::Literal(Attribute::Bool(true)));
    assert_eq!(r.unwrap_err(), "Invalid operation, no attribute to assign");
    let r = run_nodes(&mut net, &p, &None, &TaskInput::Empty);
    assert!(matches!(r, Ok(TaskOutcome::Nothing)));
}

#[test]
fn nodes_unknown_name_in_list_is_an_error() {
    let mut net = sample();
    let p = Propagation::List(vec!["q".to_string()]);
    let r = run_nodes(&mut net, &p, &some("x"), &TaskInput::Empty);
    assert_eq!(r.unwrap_err(), "Node q not found");
}

#[test]
fn function_value_is_stored_under_the_attribute() {
    let mut m = AttrMap::new();
    let r = handle_func_response(FunctionRet::Value(Attribute::Integer(4)), &mut m, &some("a.b"));
    assert!(matches!(r, Ok(TaskOutcome::Nothing)));
    let r = handle_func_response(FunctionRet::Value(Attribute::Integer(5)), &mut m, &some("a.b"));
    assert!(matches!(r, Ok(TaskOutcome::Change(Attribute::Integer(4), Attribute::Integer(5)))));
    match m.get("a") {
        Some(Attribute::Table(t)) => assert!(matches!(t.get("b"), Some(Attribute::Integer(5)))),
        _ => panic!("expected a table"),
    }
}

#[test]
fn function_value_without_attribute_is_shown() {
    let mut m = AttrMap::new();
    let r = handle_func_response(FunctionRet::Value(Attribute::Bool(true)), &mut m, &None);
    assert!(matches!(r, Ok(TaskOutcome::Show(Attribute::Bool(true)))));
    assert!(m.get("a").is_none());
    let r = handle_func_response(FunctionRet::Empty, &mut m, &some("a"));
    assert!(matches!(r, Ok(TaskOutcome::Nothing)));
    assert!(m.get("a").is_none());
    let r = handle_func_response(FunctionRet::Error("bad".to_string()), &mut m, &some("a"));
    assert_eq!(r.unwrap_err(), "bad");
}

#[test]
fn function_value_into_a_non_table_is_an_error() {
    let mut m = AttrMap::new();
    m.insert("a".to_string(), Attribute::Integer(1));
    let r = handle_func_response(FunctionRet::Value(Attribute::Integer(2)), &mut m, &some("a.b"));
    assert_eq!(r.unwrap_err(), "Attribute a is not a table");
    assert!(matches!(m.get("a"), Some(Attribute::Integer(1))));
}

#[test]
fn node_changed_through_the_network() {
    let mut net = sample();
    let name = net.node(1).unwrap().name().to_string();
    net.node_mut(1).attr_map_mut().insert("k".to_string(), Attribute::Integer(9));
    assert!(matches!(net.node(1).unwrap().attr("k"), Some(Attribute::Integer(9))));
    assert_eq!(net.node(1).unwrap().name(), name);
    net.attr_map_mut().insert("g".to_string(), Attribute::Integer(1));
    assert!(matches!(net.attr("g"), Some(Attribute::Integer(1))));
}

#[test]
fn dotted_set_then_read_gives_the_value() {
    let mut m = AttrMap::new();
    assert!(matches!(m.set_attr_dot("a.b.c", Attribute::Integer(3)), Ok(None)));
    assert!(matches!(m.attr_dot("a.b.c"), Ok(Some(Attribute::Integer(3)))));
    assert!(matches!(m.set_attr_dot("a.b.c", Attribute::Bool(false)), Ok(Some(Attribute::Integer(3)))));
    assert!(matches!(m.attr_dot("a.b.c"), Ok(Some(Attribute::Bool(false)))));
    assert!(matches!(m.attr_dot("a.b.d"), Ok(None)));
}

#[test]
fn env_variable_set_then_shown() {
    let mut env = AttrMap::new();
    env.insert("v".to_string(), Attribute::Integer(1));
    let r = run_env(&mut env, &some("v"), &TaskInput::Literal(Attribute::String("s".to_string())));
    assert!(matches!(r, Ok(TaskOutcome::Nothing)));
    let r = run_env(&mut env, &some("v"), &TaskInput::Empty);
    assert!(matches!(r, Ok(TaskOutcome::Show(Attribute::String(s))) if s == "s"));
}
