use nadi_core::attrs::{Attribute, Date};
use nadi_core::functions::{Condition, Propagation};
use nadi_core::parser::tasks::parse;
use nadi_core::parser::tokenizer::{get_tokens, valid_variable_name, TaskToken, VecTokens};
use nadi_core::parser::ParseErrorType;
use nadi_core::tasks::{TaskInput, TaskKeyword, TaskType};
use nadi_core::values::FloatTable;

fn tasks_of(txt: &str) -> Vec<nadi_core::tasks::Task> {
    let tokens = get_tokens(txt).expect("tokens");
    parse(tokens, &FloatTable::new()).expect("tasks")
}

fn error_of(txt: &str) -> nadi_core::parser::ParseError {
    let tokens = get_tokens(txt).expect("tokens");
    match parse(tokens, &FloatTable::new()) {
        Ok(_) => panic!("expected an error"),
        Err(e) => e,
    }
}

#[test]
fn date_token() {
    let tokens = get_tokens("1990-12-21").unwrap();
    assert_eq!(tokens.len(), 1);
    assert!(matches!(tokens[0].ty, TaskToken::Date));
    assert_eq!(tokens[0].content, "1990-12-21");
}

#[test]
fn tokens_spell_the_text() {
    let txt = "node<inverse>.x = [1, \"a b\", true] # note\nnetwork f(2)\n";
    let tokens = get_tokens(txt).unwrap();
    let joined: String = tokens.iter().map(|t| t.content.as_str()).collect();
    assert_eq!(joined, txt);
}

#[test]
fn string_escapes_are_decoded() {
    let tokens = get_tokens("\"a\\tb\\u{41}\"").unwrap();
    assert_eq!(tokens.len(), 1);
    match &tokens[0].ty {
        TaskToken::String(s) => assert_eq!(s, "a\tbA"),
        _ => panic!("not a string"),
    }
}

#[test]
fn tokenizer_error_position() {
    let e = get_tokens("node\n  ?x").unwrap_err();
    assert_eq!(e.line, 1);
    assert_eq!(e.col, 3);
    assert_eq!(e.linestr, "  ?x");
}

#[test]
fn variable_names() {
    assert!(valid_variable_name("abc_1"));
    assert!(valid_variable_name("_x"));
    assert!(!valid_variable_name("1abc"));
    assert!(!valid_variable_name("a-b"));
    assert!(!valid_variable_name("jt-myers"));
    assert!(valid_variable_name("abc "));
    assert!(valid_variable_name("node\t"));
    assert!(!valid_variable_name(" abc"));
    assert!(!valid_variable_name("ab c"));
    assert!(!valid_variable_name("a-"));
    assert!(!valid_variable_name(""));
}

#[test]
fn node_assignment() {
    let tasks = tasks_of("node.x = 1\n");
    assert_eq!(tasks.len(), 1);
    assert!(matches!(tasks[0].ty, TaskType::Node(Propagation::Sequential)));
    assert_eq!(tasks[0].attribute.as_deref(), Some("x"));
    assert!(matches!(tasks[0].input, TaskInput::Literal(Attribute::Integer(1))));
}

#[test]
fn network_function_call() {
    let tasks = tasks_of("network count(2, \"a\", k = true)\n");
    assert_eq!(tasks.len(), 1);
    assert!(matches!(tasks[0].ty, TaskType::Network(_)));
    assert!(tasks[0].attribute.is_none());
    match &tasks[0].input {
        TaskInput::Function(fc) => {
            assert_eq!(fc.name, "count");
            assert_eq!(fc.args.len(), 2);
            assert!(matches!(fc.args[0], TaskInput::Literal(Attribute::Integer(2))));
            match &fc.args[1] {
                TaskInput::Literal(Attribute::String(s)) => assert_eq!(s, "a"),
                _ => panic!("second argument"),
            }
            assert_eq!(fc.kwargs.len(), 1);
            assert_eq!(fc.kwargs[0].0, "k");
            assert!(matches!(fc.kwargs[0].1, TaskInput::Literal(Attribute::Bool(true))));
        }
        _ => panic!("not a function"),
    }
}

#[test]
fn keyword_arguments_are_replaced() {
    let tasks = tasks_of("node f(a = 1, a = 2)\n");
    match &tasks[0].input {
        TaskInput::Function(fc) => {
            assert_eq!(fc.kwargs.len(), 1);
            assert!(matches!(fc.kwargs[0].1, TaskInput::Literal(Attribute::Integer(2))));
        }
        _ => panic!("not a function"),
    }
}

#[test]
fn nested_function_call() {
    let tasks = tasks_of("node.y = f(g(1))\n");
    assert_eq!(tasks.len(), 1);
    assert_eq!(tasks[0].attribute.as_deref(), Some("y"));
    match &tasks[0].input {
        TaskInput::Function(fc) => {
            assert_eq!(fc.name, "f");
            match &fc.args[0] {
                TaskInput::Function(inner) => assert_eq!(inner.name, "g"),
                _ => panic!("inner call"),
            }
        }
        _ => panic!("not a function"),
    }
}

#[test]
fn array_and_table_values() {
    let tasks = tasks_of("node.x = [1, 2]\nnode.t = {a = true, \"b\" = 3}\n");
    assert_eq!(tasks.len(), 2);
    match &tasks[0].input {
        TaskInput::Literal(Attribute::Array(v)) => {
            assert_eq!(v.len(), 2);
            assert!(matches!(v[1], Attribute::Integer(2)));
        }
        _ => panic!("array"),
    }
    match &tasks[1].input {
        TaskInput::Literal(Attribute::Table(m)) => {
            assert_eq!(m.len(), 2);
            assert!(matches!(m.get("a"), Some(Attribute::Bool(true))));
            assert!(matches!(m.get("b"), Some(Attribute::Integer(3))));
        }
        _ => panic!("table"),
    }
}

#[test]
fn float_values_come_from_the_table() {
    let tokens = get_tokens("env.f = 2.5\n").unwrap();
    let mut floats = FloatTable::new();
    floats.entries.push(("2.5".to_string(), 2.5f64.to_bits()));
    let tasks = parse(tokens, &floats).unwrap();
    match tasks[0].input {
        TaskInput::Literal(Attribute::Float(b)) => assert_eq!(f64::from_bits(b), 2.5),
        _ => panic!("float"),
    }
    assert!(matches!(tasks[0].ty, TaskType::Env));
}

#[test]
fn propagation_by_name() {
    let tasks = tasks_of("node<inverse>.x\n");
    assert!(matches!(tasks[0].ty, TaskType::Node(Propagation::Inverse)));
    assert!(matches!(tasks[0].input, TaskInput::Empty));
}

#[test]
fn unknown_propagation_is_an_error() {
    let e = error_of("node<sideways>.x\n");
    assert!(matches!(e.ty, ParseErrorType::InvalidPropagation));
}

#[test]
fn node_list_and_path() {
    let tasks = tasks_of("node[a, b].x = 1\nnode[a -> c].y = 2\n");
    match &tasks[0].ty {
        TaskType::Node(Propagation::List(v)) => assert_eq!(v, &vec!["a".to_string(), "b".to_string()]),
        _ => panic!("list"),
    }
    match &tasks[1].ty {
        TaskType::Node(Propagation::Path(p)) => {
            assert_eq!(p.start, "a");
            assert_eq!(p.end, "c");
        }
        _ => panic!("path"),
    }
}

#[test]
fn conditional_propagation() {
    let tasks = tasks_of("node(x > 2 & !y).z = 1\n");
    match &tasks[0].ty {
        TaskType::Node(Propagation::Conditional(Condition::And(a, b))) => {
            match a.as_ref() {
                Condition::Gt(v, c) => {
                    assert_eq!(v, "x");
                    assert!(matches!(c.as_ref(), Condition::Literal(Attribute::Integer(2))));
                }
                _ => panic!("comparison"),
            }
            assert!(matches!(b.as_ref(), Condition::Not(_)));
        }
        _ => panic!("conditional"),
    }
}

#[test]
fn strict_conditionals() {
    let tasks = tasks_of("node(=x).a = 1\nnode(==x).b = 2\n");
    assert!(matches!(tasks[0].ty, TaskType::Node(Propagation::ConditionalStrict(_))));
    assert!(matches!(tasks[1].ty, TaskType::Node(Propagation::ConditionalSuperStrict(_))));
}

#[test]
fn help_and_exit() {
    let tasks = tasks_of("help node f\nexit\nnode.x = 1\n");
    assert_eq!(tasks.len(), 2);
    match &tasks[0].ty {
        TaskType::Help(Some(TaskKeyword::Node), Some(v)) => assert_eq!(v, "f"),
        _ => panic!("help"),
    }
    assert!(matches!(tasks[1].ty, TaskType::Exit));
}

#[test]
fn end_discards_the_rest() {
    let tasks = tasks_of("node.x\nend\nnode.y = 1\n");
    assert_eq!(tasks.len(), 1);
    assert_eq!(tasks[0].attribute.as_deref(), Some("x"));
}

#[test]
fn open_statement_is_finished_at_the_end() {
    let tasks = tasks_of("env.x");
    assert_eq!(tasks.len(), 1);
    assert!(matches!(tasks[0].ty, TaskType::Env));
    assert_eq!(tasks[0].attribute.as_deref(), Some("x"));
}

#[test]
fn syntax_error_position() {
    let e = error_of("node.x = 1\nnode.y = }\n");
    assert!(matches!(e.ty, ParseErrorType::SyntaxError));
    assert_eq!(e.line, 1);
    assert_eq!(e.col, 9);
    assert_eq!(e.linestr, "node.y = }");
}

#[test]
fn unclosed_array() {
    let e = error_of("node.x = [1, 2");
    assert!(matches!(e.ty, ParseErrorType::Unclosed));
}

#[test]
fn empty_array_is_not_a_value() {
    let e = error_of("node.x = []\n");
    match e.ty {
        ParseErrorType::ValueError(m) => assert_eq!(m, "Not an Attribute"),
        _ => panic!("value error"),
    }
}

#[test]
fn env_function_is_refused() {
    let e = error_of("env.x = f()\n");
    match e.ty {
        ParseErrorType::ValueError(m) => assert_eq!(m, "Env Rhs can only be literal for now"),
        _ => panic!("value error"),
    }
}

#[test]
fn keyword_words() {
    assert!(matches!(TaskKeyword::from_str("net"), Ok(TaskKeyword::Network)));
    assert_eq!(TaskKeyword::from_str("nodes").unwrap_err(), "nodes is not a keyword");
    assert_eq!(TaskKeyword::Network.to_string(), "network");
    assert_eq!(TaskKeyword::End.help(), "End the tasks file here (discard everything else)");
}

#[test]
fn date_values() {
    let tasks = tasks_of("node.d = 2020-03-01\n");
    match tasks[0].input {
        TaskInput::Literal(Attribute::Date(d)) => assert_eq!(d, Date::new(2020, 3, 1)),
        _ => panic!("date"),
    }
}

fn strip_escapes(s: &str) -> String {
    let mut out = String::new();
    let mut chars = s.chars().peekable();
    while let Some(c) = chars.next() {
        if c == '\x1b' && chars.peek() == Some(&'[') {
            for d in chars.by_ref() {
                if d == 'm' {
                    break;
                }
            }
        } else {
            out.push(c);
        }
    }
    out
}

#[test]
fn colored_tokens_strip_back_to_their_text() {
    let tokens = get_tokens("node[a] x = 1 # note\nenv y = \"s\"\n").unwrap();
    for t in &tokens {
        assert_eq!(strip_escapes(&t.colored()), t.content);
    }
}

#[test]
fn token_reader_gives_the_tokens_in_order() {
    let ts = get_tokens("node x = 1\nenv y = 2\n").unwrap();
    let contents: Vec<String> = ts.iter().map(|t| t.content.clone()).collect();
    let mut vt = VecTokens::new(ts);
    assert_eq!(vt.line, 0);
    assert_eq!(vt.colstart, 0);
    assert_eq!(vt.linestr_eol(), "node x = 1");
    let mut seen = Vec::new();
    while let Some(t) = vt.next() {
        seen.push(t.content);
    }
    assert_eq!(seen, contents);
    assert!(vt.next().is_none());
}
