use rune_interpreter::json_graph::{json_stringify_graph, GraphNode, GraphValue, StringifyError};

fn chars(s: &str) -> Vec<char> {
    s.chars().collect()
}

fn text(t: &Option<Vec<char>>) -> Option<String> {
    t.as_ref().map(|v| v.iter().collect())
}

#[test]
fn test_graph_self_holding_array() {
    // a = [1, a]
    let nodes = vec![GraphNode::Array(vec![GraphValue::Int(1), GraphValue::Node(0)])];
    let (t, e) = json_stringify_graph(&nodes, &GraphValue::Node(0));
    assert_eq!(text(&t), Some("[1,null]".to_string()));
    assert_eq!(e, Some(StringifyError::Circular));
}

#[test]
fn test_graph_self_holding_object() {
    // o = { a: 1, me: o, s: "x" }
    let nodes = vec![GraphNode::Object(vec![
        (chars("a"), GraphValue::Int(1)),
        (chars("me"), GraphValue::Node(0)),
        (chars("s"), GraphValue::Str(chars("x"))),
    ])];
    let (t, e) = json_stringify_graph(&nodes, &GraphValue::Node(0));
    assert_eq!(text(&t), Some("{\"a\":1,\"s\":\"x\"}".to_string()));
    assert_eq!(e, Some(StringifyError::Circular));
}

#[test]
fn test_graph_indirect_cycle() {
    // a = [b], b = [a]
    let nodes = vec![GraphNode::Array(vec![GraphValue::Node(1)]), GraphNode::Array(vec![GraphValue::Node(0)])];
    let (t, e) = json_stringify_graph(&nodes, &GraphValue::Node(0));
    assert_eq!(text(&t), Some("[[null]]".to_string()));
    assert_eq!(e, Some(StringifyError::Circular));
}

#[test]
fn test_graph_shared_is_no_cycle() {
    // x = [true]; a = [x, x, undefined]; the same node twice is no cycle
    let nodes = vec![
        GraphNode::Array(vec![GraphValue::Bool(true)]),
        GraphNode::Array(vec![GraphValue::Node(0), GraphValue::Node(0), GraphValue::Undefined]),
    ];
    let (t, e) = json_stringify_graph(&nodes, &GraphValue::Node(1));
    assert_eq!(text(&t), Some("[[true],[true],null]".to_string()));
    assert_eq!(e, None);
}

#[test]
fn test_graph_undefined_and_scalars() {
    let nodes: Vec<GraphNode> = vec![GraphNode::Object(vec![
        (chars("u"), GraphValue::Undefined),
        (chars("n"), GraphValue::Number(chars("1.5"))),
        (chars("z"), GraphValue::Null),
    ])];
    let (t, e) = json_stringify_graph(&nodes, &GraphValue::Node(0));
    assert_eq!(text(&t), Some("{\"n\":1.5,\"z\":null}".to_string()));
    assert_eq!(e, None);
    assert_eq!(json_stringify_graph(&nodes, &GraphValue::Undefined), (None, None));
    let (t, _) = json_stringify_graph(&nodes, &GraphValue::Str(chars("q\"")));
    assert_eq!(text(&t), Some("\"q\\\"\"".to_string()));
}

#[test]
fn test_stringify_error_message() {
    assert_eq!(StringifyError::Circular.message(), "Converting circular structure to JSON");
}
