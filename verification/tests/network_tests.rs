use nadi_core::attrs::{AttrMap, Attribute};
use nadi_core::functions::{Condition, Propagation};
use nadi_core::network::{Network, StrPath};
use nadi_core::node::NodeInner;
use nadi_core::parser::network::parse as parse_network;
use nadi_core::parser::tokenizer::get_tokens;

fn sample() -> Network {
    let paths = vec![
        StrPath::new("a".to_string(), "b".to_string()),
        StrPath::new("b".to_string(), "c".to_string()),
        StrPath::new("d".to_string(), "b".to_string()),
    ];
    Network::from_paths(&paths)
}

fn names(net: &Network) -> Vec<String> {
    (0..net.nodes_count()).map(|i| net.node(i).unwrap().name().to_string()).collect()
}

#[test]
fn network_file_is_parsed() {
    let tokens = get_tokens("cannelton -> newburgh\n\"jt-myers\" -> golconda\n\n").unwrap();
    let paths = parse_network(tokens).unwrap();
    assert_eq!(paths.len(), 2);
    assert_eq!(paths[0].start, "cannelton");
    assert_eq!(paths[0].end, "newburgh");
    assert_eq!(paths[1].start, "jt-myers");
    assert_eq!(paths[1].end, "golconda");
}

#[test]
fn network_file_needs_a_newline() {
    let tokens = get_tokens("a -> b").unwrap();
    let e = parse_network(tokens).unwrap_err();
    assert!(matches!(e.ty, nadi_core::parser::ParseErrorType::Unclosed));
}

#[test]
fn network_file_refuses_symbols() {
    let tokens = get_tokens("a -> b = c\n").unwrap();
    let e = parse_network(tokens).unwrap_err();
    assert!(matches!(e.ty, nadi_core::parser::ParseErrorType::InvalidToken));
}

#[test]
fn reorder_starts_at_the_outlet() {
    let net = sample();
    assert_eq!(names(&net), vec!["c", "b", "a", "d"]);
    for i in 0..net.nodes_count() {
        assert_eq!(net.node(i).unwrap().index(), i);
        assert!(matches!(net.node(i).unwrap().attr("INDEX"), Some(Attribute::Integer(x)) if *x == i as i64));
    }
}

#[test]
fn orders_count_upstream_nodes() {
    let net = sample();
    let orders: Vec<u64> = (0..4).map(|i| net.node(i).unwrap().order()).collect();
    assert_eq!(orders, vec![3, 2, 0, 0]);
}

#[test]
fn levels_of_tributaries() {
    let net = sample();
    let levels: Vec<u64> = (0..4).map(|i| net.node(i).unwrap().level()).collect();
    assert_eq!(levels, vec![0, 0, 0, 1]);
}

#[test]
fn utf8_diagram() {
    let net = sample();
    assert_eq!(net.connections_utf8(), vec!["  ╷", "  │", "  ╵", "  ├──"]);
}

#[test]
fn ascii_diagram() {
    let net = sample();
    assert_eq!(net.connections_ascii(), vec!["  *", "  *", "  *", "  |--*"]);
}

#[test]
fn edges_by_index() {
    let net = sample();
    assert_eq!(net.edges_ind(), vec![(1, 0), (2, 1), (3, 1)]);
}

#[test]
fn path_down_to_the_outlet() {
    let net = sample();
    let p = net.nodes_path(&StrPath::new("a".to_string(), "c".to_string())).unwrap();
    assert_eq!(p, vec![2, 1, 0]);
}

#[test]
fn path_that_does_not_reach() {
    let net = sample();
    let e = net.nodes_path(&StrPath::new("c".to_string(), "a".to_string())).unwrap_err();
    assert_eq!(e, "Node \"c\" does not reach Node \"a\" (path ends at \"c\")");
    let e = net.nodes_path(&StrPath::new("x".to_string(), "a".to_string())).unwrap_err();
    assert_eq!(e, "Node x not found");
}

#[test]
fn propagations() {
    let net = sample();
    assert_eq!(net.nodes_propagation(&Propagation::Sequential).unwrap(), vec![0, 1, 2, 3]);
    assert_eq!(net.nodes_propagation(&Propagation::Inverse).unwrap(), vec![3, 2, 1, 0]);
    let list = Propagation::List(vec!["d".to_string(), "c".to_string()]);
    assert_eq!(net.nodes_propagation(&list).unwrap(), vec![3, 0]);
    let bad = Propagation::List(vec!["zz".to_string()]);
    assert_eq!(net.nodes_propagation(&bad).unwrap_err(), "Node zz not found");
}

#[test]
fn conditional_propagation_by_name() {
    let net = sample();
    let cond = Condition::Eq("NAME".to_string(), Box::new(Condition::Literal(Attribute::String("b".to_string()))));
    assert_eq!(net.nodes_propagation(&Propagation::Conditional(cond)).unwrap(), vec![1]);
    let strict = Condition::Gt("missing".to_string(), Box::new(Condition::Literal(Attribute::Integer(1))));
    assert_eq!(
        net.nodes_propagation(&Propagation::ConditionalStrict(strict)).unwrap_err(),
        "Attrbute missing doesn't exist"
    );
}

#[test]
fn unconnected_nodes_stay_unordered() {
    let mut net = Network::new();
    net.insert_node_by_name("x");
    net.insert_node_by_name("y");
    net.reorder();
    assert_eq!(names(&net), vec!["x", "y"]);
}

#[test]
fn lookups_by_name() {
    let net = sample();
    assert_eq!(net.node_by_name("d").unwrap().index(), 3);
    assert!(net.node_by_name("e").is_none());
    assert_eq!(net.try_node_by_name("e").unwrap_err(), "Node e not found");
}

#[test]
fn node_checks() {
    let mut n = NodeInner::new(0, "x");
    n.set_attr("v", Attribute::Integer(5));
    n.set_attr("on", Attribute::Bool(true));
    n.set_attr("s", Attribute::String(String::new()));
    let gt = Condition::Gt("v".to_string(), Box::new(Condition::Literal(Attribute::Integer(3))));
    assert!(n.check(&gt));
    let lt = Condition::Lt("v".to_string(), Box::new(Condition::Literal(Attribute::Integer(3))));
    assert!(!n.check(&lt));
    assert!(n.check(&Condition::Variable("on".to_string())));
    // an empty string reads as true
    assert!(n.check(&Condition::Variable("s".to_string())));
    assert_eq!(n.check_strict(&Condition::Variable("none".to_string())).unwrap_err(),
        "Attribute Error: Attribute none not found in Node");
    let mixed = Condition::Eq("v".to_string(), Box::new(Condition::Literal(Attribute::String("5".to_string()))));
    assert!(!n.check(&mixed));
    assert_eq!(n.check_super_strict(&mixed).unwrap_err(), "Cannot compare Integer with String");
    assert_eq!(n.check_super_strict(&Condition::Variable("s".to_string())).unwrap_err(),
        "Incorrect Type: got String instead of bool");
}

#[test]
fn dotted_attributes() {
    let mut inner = AttrMap::new();
    inner.insert("b".to_string(), Attribute::Integer(7));
    let mut m = AttrMap::new();
    m.insert("a".to_string(), Attribute::Table(inner));
    m.insert("x".to_string(), Attribute::Integer(1));
    assert!(matches!(m.attr_dot("a.b"), Ok(Some(Attribute::Integer(7)))));
    assert!(matches!(m.attr_dot("a.c"), Ok(None)));
    assert_eq!(m.attr_dot("x.y").unwrap_err(), "Attribute x is not a table");
}

#[test]
fn new_node_attributes() {
    let n = NodeInner::new(3, "smithland");
    assert_eq!(n.name(), "smithland");
    assert!(matches!(n.attr("NAME"), Some(Attribute::String(s)) if s == "smithland"));
    assert!(matches!(n.attr("INDEX"), Some(Attribute::Integer(3))));
}

#[test]
fn edges_by_name_and_node_lists() {
    let net = sample();
    let order = names(&net);
    let by_name: Vec<(String, String)> = net
        .edges_str()
        .into_iter()
        .map(|(a, b)| (a.to_string(), b.to_string()))
        .collect();
    let expected: Vec<(String, String)> = net
        .edges_ind()
        .into_iter()
        .map(|(a, b)| (order[a].clone(), order[b].clone()))
        .collect();
    assert_eq!(by_name, expected);
    assert!(by_name.contains(&("a".to_string(), "b".to_string())));
    let listed: Vec<String> = net.node_names().into_iter().map(|s| s.to_string()).collect();
    assert_eq!(listed, order);
    let rev: Vec<String> = net.nodes_rev().into_iter().map(|n| n.name().to_string()).collect();
    let mut back = order.clone();
    back.reverse();
    assert_eq!(rev, back);
    assert_eq!(net.nodes().len(), 4);
}

#[test]
fn network_attributes() {
    let mut net = sample();
    assert!(net.attr("x").is_none());
    assert!(net.set_attr("x", Attribute::Integer(3)).is_none());
    assert!(matches!(net.attr("x"), Some(Attribute::Integer(3))));
    assert!(matches!(net.set_attr("x", Attribute::Bool(true)), Some(Attribute::Integer(3))));
    assert_eq!(net.attr_map().len(), 1);
    assert!(matches!(net.del_attr("x"), Some(Attribute::Bool(true))));
    assert!(net.attr("x").is_none());
}

fn place(net: &Network, name: &str) -> usize {
    names(net).iter().position(|n| n == name).unwrap()
}

#[test]
fn removing_a_middle_node_joins_its_inputs_to_its_output() {
    let mut net = sample();
    let b = place(&net, "b");
    net.remove_node(b);
    assert_eq!(net.nodes_count(), 3);
    let mut left = names(&net);
    left.sort();
    assert_eq!(left, vec!["a", "c", "d"]);
    assert_eq!(names(&net)[0], "c");
    let c = net.node_by_name("c").unwrap();
    assert_eq!(c.inputs().len(), 2);
    assert_eq!(net.node_by_name("c").unwrap().index(), 0);
    assert!(net.node_by_name("a").unwrap().output().is_some());
    for i in 0..net.nodes_count() {
        assert_eq!(net.node(i).unwrap().index(), i);
    }
    let mut e = net.edges_ind();
    e.sort();
    assert_eq!(e, vec![(1, 0), (2, 0)]);
}

#[test]
fn removing_a_leaf_node() {
    let mut net = sample();
    let a = place(&net, "a");
    net.remove_node_single(a);
    assert_eq!(net.nodes_count(), 3);
    assert!(net.node_by_name("a").is_none());
    assert_eq!(net.node_by_name("b").unwrap().inputs().len(), 1);
    for i in 0..net.nodes_count() {
        assert_eq!(net.node(i).unwrap().index(), i);
    }
}

#[test]
fn removing_the_outlet_leaves_its_inputs_without_output() {
    let mut net = sample();
    let c = place(&net, "c");
    net.remove_node_single(c);
    assert_eq!(net.nodes_count(), 3);
    assert_eq!(net.node_by_name("b").unwrap().output(), None);
}

#[test]
fn network_file_example_from_the_documentation() {
    let txt = "    cannelton -> newburgh\n    newburgh -> evansville\n    evansville -> \"jt-myers\"\n    \"jt-myers\" -> \"old-shawneetown\"\n    \"old-shawneetown\" -> golconda\n    markland -> mcalpine\n    golconda -> smithland\n";
    let paths = parse_network(get_tokens(txt).unwrap()).unwrap();
    assert_eq!(paths.len(), 7);
    let net = Network::from_paths(&paths);
    assert_eq!(net.nodes_count(), 9);
    let out_name = |name: &str| -> Option<String> {
        let id = net.node_by_name(name).unwrap().output()?;
        names(&net).into_iter().find(|m| net.node_id(m) == Some(id))
    };
    assert_eq!(out_name("golconda"), Some("smithland".to_string()));
    assert_eq!(out_name("markland"), Some("mcalpine".to_string()));
    assert_eq!(out_name("smithland"), None);
}

#[test]
fn ordered_network_lists_outputs_before_inputs() {
    let net = sample();
    // in a connected network the order starts at the outlet, and each node
    // comes after the node it flows into
    let order = names(&net);
    assert_eq!(order[0], "c");
    let pos = |n: &str| order.iter().position(|x| x == n).unwrap();
    assert!(pos("b") < pos("a"));
    assert!(pos("b") < pos("d"));
    assert!(pos("c") < pos("b"));
}

#[test]
fn inserting_a_present_name_keeps_the_network() {
    let mut net = sample();
    let n = net.nodes_count();
    net.insert_node_by_name("b");
    assert_eq!(net.nodes_count(), n);
    net.insert_node_by_name("new");
    assert_eq!(net.nodes_count(), n + 1);
    assert_eq!(net.node(n).unwrap().name(), "new");
}

#[test]
fn strict_checks_agree_with_the_lenient_one() {
    let mut n = NodeInner::new(0, "x");
    n.set_attr("v", Attribute::Integer(5));
    n.set_attr("on", Attribute::Bool(false));
    let conds = vec![
        Condition::Gt("v".to_string(), Box::new(Condition::Literal(Attribute::Integer(3)))),
        Condition::Not(Box::new(Condition::Variable("on".to_string()))),
        Condition::And(
            Box::new(Condition::Variable("on".to_string())),
            Box::new(Condition::Eq("v".to_string(), Box::new(Condition::Literal(Attribute::Integer(5))))),
        ),
    ];
    for c in &conds {
        assert_eq!(n.check_strict(c).unwrap(), n.check(c));
        assert_eq!(n.check_super_strict(c).unwrap(), n.check(c));
    }
}
