//! `JSON.stringify` over values that may share or contain each other.
//!
//! Arrays and objects are nodes of a graph, referred to by index, so a
//! value can hold itself or an ancestor. The writer keeps the path of
//! nodes it is inside; a node met again on that path is a cycle: it is
//! written like `undefined` (`null` as an array element, left out as an
//! object member), the writing goes on, and the call reports a TypeError.
use vstd::prelude::*;
use crate::json::{
    copy_chars,
    items_view,
    json_stringify,
    json_view,
    lemma_array_view,
    lemma_object_view,
    members_view,
    stringify,
    Json,
    JsonValue,
};
use crate::text::push_range;

verus! {

/// A value as `JSON.stringify` meets it, where arrays and objects are
/// nodes of the graph given by their index. Holes of arrays read as
/// `Undefined`; values JSON cannot write (functions, NaN, the
/// infinities) are given as `Null`, which is how they are written.
pub enum GraphValue {
    Undefined,
    Null,
    Bool(bool),
    Int(i32),
    Number(Vec<char>),
    Str(Vec<char>),
    Node(usize),
}

/// An array or an object of the graph.
pub enum GraphNode {
    Array(Vec<GraphValue>),
    /// Members in property order.
    Object(Vec<(Vec<char>, GraphValue)>),
}

/// Why `JSON.stringify` throws.
#[derive(Clone, Copy, Debug, PartialEq, Eq, Structural)]
pub enum StringifyError {
    /// A value contains itself.
    Circular,
}

impl StringifyError {
    /// The message of the TypeError.
    pub fn message(&self) -> (r: &'static str)
        ensures
            r@ == "Converting circular structure to JSON"@,
    {
        "Converting circular structure to JSON"
    }
}

/// `v` refers to no node outside a graph of `n` nodes.
pub open spec fn value_fits(v: GraphValue, n: int) -> bool {
    v matches GraphValue::Node(i) ==> i < n
}

/// Every value held by `node` refers to a node of a graph of `n` nodes.
pub open spec fn node_fits(node: GraphNode, n: int) -> bool {
    match node {
        GraphNode::Array(items) => forall|i: int| 0 <= i < items@.len() ==> value_fits(#[trigger] items@[i], n),
        GraphNode::Object(ms) => forall|i: int| 0 <= i < ms@.len() ==> value_fits(#[trigger] ms@[i].1, n),
    }
}

/// Every reference in the graph is to one of its nodes.
pub open spec fn graph_wf(nodes: Seq<GraphNode>) -> bool {
    forall|k: int| 0 <= k < nodes.len() ==> node_fits(#[trigger] nodes[k], nodes.len() as int)
}

/// A tree, or `null` where there is none.
pub open spec fn or_null(j: Option<Json>) -> Json {
    match j {
        Some(t) => t,
        None => Json::Null,
    }
}

/// What `JSON.stringify` writes for `v` inside the nodes of `path`: the
/// tree (none for `undefined` and for a cycle) and whether a cycle was met
/// anywhere in it. A node on the path is a cycle; so is any node once the
/// path is as long as the graph, since a path of distinct nodes is never
/// longer. A reference outside the graph, which `graph_wf` rules out, is
/// read as `undefined`.
pub open spec fn graph_value(nodes: Seq<GraphNode>, path: Seq<usize>, v: GraphValue) -> (Option<Json>, bool)
    decreases nodes.len() - path.len(), 0int, 0int,
{
    match v {
        GraphValue::Undefined => (None, false),
        GraphValue::Null => (Some(Json::Null), false),
        GraphValue::Bool(b) => (Some(Json::Bool(b)), false),
        GraphValue::Int(n) => (Some(Json::Int(n)), false),
        GraphValue::Number(t) => (Some(Json::Num(t@)), false),
        GraphValue::Str(t) => (Some(Json::Str(t@)), false),
        GraphValue::Node(n) => if n >= nodes.len() {
            (None, false)
        } else if path.contains(n) || path.len() >= nodes.len() {
            (None, true)
        } else {
            match nodes[n as int] {
                GraphNode::Array(items) => {
                    let (js, e) = graph_items(nodes, path.push(n), items@, items@.len() as int);
                    (Some(Json::Arr(js)), e)
                },
                GraphNode::Object(ms) => {
                    let (js, e) = graph_members(nodes, path.push(n), ms@, ms@.len() as int);
                    (Some(Json::Obj(js)), e)
                },
            }
        },
    }
}

/// The first `k` elements of an array inside `path`, each written as its
/// tree or `null`, and whether a cycle was met.
pub open spec fn graph_items(nodes: Seq<GraphNode>, path: Seq<usize>, items: Seq<GraphValue>, k: int) -> (
    Seq<Json>,
    bool,
)
    decreases nodes.len() - path.len(), 1int, k,
{
    if k <= 0 {
        (Seq::empty(), false)
    } else {
        let (prev, e1) = graph_items(nodes, path, items, k - 1);
        let (j, e2) = graph_value(nodes, path, items[k - 1]);
        (prev.push(or_null(j)), e1 || e2)
    }
}

/// The first `k` members of an object inside `path`, those with a tree
/// kept in order, and whether a cycle was met.
pub open spec fn graph_members(
    nodes: Seq<GraphNode>,
    path: Seq<usize>,
    ms: Seq<(Vec<char>, GraphValue)>,
    k: int,
) -> (Seq<(Seq<char>, Json)>, bool)
    decreases nodes.len() - path.len(), 1int, k,
{
    if k <= 0 {
        (Seq::empty(), false)
    } else {
        let (prev, e1) = graph_members(nodes, path, ms, k - 1);
        let (j, e2) = graph_value(nodes, path, ms[k - 1].1);
        match j {
            Some(t) => (prev.push((ms[k - 1].0@, t)), e1 || e2),
            None => (prev, e1 || e2),
        }
    }
}

/// The tree a written value stands for, if any.
pub open spec fn opt_view(j: Option<JsonValue>) -> Option<Json> {
    match j {
        Some(v) => Some(json_view(v)),
        None => None,
    }
}

/// Whether `n` is on the path.
fn on_path(path: &Vec<usize>, n: usize) -> (r: bool)
    ensures
        r == path@.contains(n),
{
    let mut i: usize = 0;
    while i < path.len()
        invariant
            i <= path@.len(),
            forall|k: int| 0 <= k < i ==> path@[k] != n,
        decreases path.len() - i,
    {
        if path[i] == n {
            assert(path@[i as int] == n);
            return true;
        }
        i = i + 1;
    }
    false
}

/// The value `JSON.stringify` writes for `v` inside the nodes of `path`,
/// and whether a cycle was met.
fn write_graph_value(nodes: &Vec<GraphNode>, path: &Vec<usize>, v: &GraphValue) -> (r: (Option<JsonValue>, bool))
    requires
        graph_wf(nodes@),
        value_fits(*v, nodes@.len() as int),
    ensures
        opt_view(r.0) == graph_value(nodes@, path@, *v).0,
        r.1 == graph_value(nodes@, path@, *v).1,
    decreases nodes@.len() - path@.len(),
{
    match v {
        GraphValue::Undefined => (None, false),
        GraphValue::Null => (Some(JsonValue::Null), false),
        GraphValue::Bool(b) => (Some(JsonValue::Bool(*b)), false),
        GraphValue::Int(n) => (Some(JsonValue::Int(*n)), false),
        GraphValue::Number(t) => (Some(JsonValue::Number(copy_chars(t))), false),
        GraphValue::Str(t) => (Some(JsonValue::Str(copy_chars(t))), false),
        GraphValue::Node(n) => {
            let n = *n;
            if on_path(path, n) || path.len() >= nodes.len() {
                return (None, true);
            }
            let mut inner: Vec<usize> = Vec::new();
            push_range(&mut inner, path.as_slice(), 0, path.len());
            inner.push(n);
            assert(inner@ =~= path@.push(n));
            proof {
                assert(node_fits(nodes@[n as int], nodes@.len() as int));
            }
            match &nodes[n] {
                GraphNode::Array(items) => {
                    let mut out: Vec<JsonValue> = Vec::new();
                    let mut err = false;
                    let mut i: usize = 0;
                    while i < items.len()
                        invariant
                            graph_wf(nodes@),
                            forall|k: int| 0 <= k < items@.len() ==> value_fits(#[trigger] items@[k], nodes@.len() as int),
                            inner@ == path@.push(n),
                            path@.len() < nodes@.len(),
                            i <= items@.len(),
                            (items_view(out@), err) == graph_items(nodes@, inner@, items@, i as int),
                        decreases items.len() - i,
                    {
                        proof {
                            assert(value_fits(items@[i as int], nodes@.len() as int));
                        }
                        let (j, e) = write_graph_value(nodes, &inner, &items[i]);
                        let w = match j {
                            Some(t) => t,
                            None => JsonValue::Null,
                        };
                        let ghost before = out@;
                        out.push(w);
                        proof {
                            assert(json_view(w) == or_null(graph_value(nodes@, inner@, items@[i as int]).0));
                            assert(items_view(out@) =~= items_view(before).push(json_view(w)));
                        }
                        err = err || e;
                        i = i + 1;
                    }
                    proof {
                        lemma_array_view(out);
                    }
                    (Some(JsonValue::Array(out)), err)
                },
                GraphNode::Object(ms) => {
                    let mut out: Vec<(Vec<char>, JsonValue)> = Vec::new();
                    let mut err = false;
                    let mut i: usize = 0;
                    while i < ms.len()
                        invariant
                            graph_wf(nodes@),
                            forall|k: int| 0 <= k < ms@.len() ==> value_fits(#[trigger] ms@[k].1, nodes@.len() as int),
                            inner@ == path@.push(n),
                            path@.len() < nodes@.len(),
                            i <= ms@.len(),
                            (members_view(out@), err) == graph_members(nodes@, inner@, ms@, i as int),
                        decreases ms.len() - i,
                    {
                        proof {
                            assert(value_fits(ms@[i as int].1, nodes@.len() as int));
                        }
                        let (j, e) = write_graph_value(nodes, &inner, &ms[i].1);
                        match j {
                            Some(t) => {
                                let key = copy_chars(&ms[i].0);
                                let ghost before = out@;
                                out.push((key, t));
                                proof {
                                    assert(members_view(out@) =~= members_view(before).push((key@, json_view(t))));
                                }
                            },
                            None => {},
                        }
                        err = err || e;
                        i = i + 1;
                    }
                    proof {
                        lemma_object_view(out);
                    }
                    (Some(JsonValue::Object(out)), err)
                },
            }
        },
    }
}

/// `JSON.stringify(root)` over the graph `nodes`: the text of what
/// `graph_value` gives from an empty path (none when `root` is
/// `undefined`), and the TypeError when a cycle was met. The text is still
/// written when there is a cycle, with the cycle written like `undefined`.
pub fn json_stringify_graph(nodes: &Vec<GraphNode>, root: &GraphValue) -> (r: (
    Option<Vec<char>>,
    Option<StringifyError>,
))
    requires
        graph_wf(nodes@),
        value_fits(*root, nodes@.len() as int),
    ensures
        r.0 is Some <==> graph_value(nodes@, Seq::empty(), *root).0 is Some,
        r.0 matches Some(t) ==> t@ == stringify(graph_value(nodes@, Seq::empty(), *root).0->0),
        r.1 == (if graph_value(nodes@, Seq::empty(), *root).1 {
            Some(StringifyError::Circular)
        } else {
            None
        }),
{
    let path: Vec<usize> = Vec::new();
    assert(path@ =~= Seq::<usize>::empty());
    let (j, circular) = write_graph_value(nodes, &path, root);
    let text = match j {
        Some(t) => Some(json_stringify(&t)),
        None => None,
    };
    let error = if circular {
        Some(StringifyError::Circular)
    } else {
        None
    };
    (text, error)
}

/// What the first `k` elements of an array are written as: each element's
/// tree or `null`, in order; a cycle in any of them is reported.
pub proof fn lemma_graph_items(nodes: Seq<GraphNode>, path: Seq<usize>, items: Seq<GraphValue>, k: int)
    requires
        0 <= k <= items.len(),
    ensures
        graph_items(nodes, path, items, k).0.len() == k,
        forall|i: int| 0 <= i < k ==> #[trigger] graph_items(nodes, path, items, k).0[i] == or_null(graph_value(nodes, path, items[i]).0),
        forall|i: int| 0 <= i < k && #[trigger] graph_value(nodes, path, items[i]).1 ==> graph_items(nodes, path, items, k).1,
    decreases k,
{
    if k > 0 {
        lemma_graph_items(nodes, path, items, k - 1);
    }
}

/// A cycle in any of the first `k` members of an object is reported.
pub proof fn lemma_graph_members_cycle(nodes: Seq<GraphNode>, path: Seq<usize>, ms: Seq<(Vec<char>, GraphValue)>, k: int)
    requires
        0 <= k <= ms.len(),
    ensures
        forall|i: int| 0 <= i < k && #[trigger] graph_value(nodes, path, ms[i].1).1 ==> graph_members(nodes, path, ms, k).1,
    decreases k,
{
    if k > 0 {
        lemma_graph_members_cycle(nodes, path, ms, k - 1);
    }
}

/// An array that holds itself: `JSON.stringify` of it reports the
/// circular-structure error, and writes that element as `null`.
pub proof fn law_self_holding_array(nodes: Seq<GraphNode>, n: usize, items: Vec<GraphValue>, k: int)
    requires
        n < nodes.len(),
        nodes[n as int] == GraphNode::Array(items),
        0 <= k < items@.len(),
        items@[k] == GraphValue::Node(n),
    ensures
        graph_value(nodes, Seq::empty(), GraphValue::Node(n)).1,
        graph_value(nodes, Seq::empty(), GraphValue::Node(n)).0 matches Some(Json::Arr(js)) && js[k] == Json::Null,
{
    let path = Seq::<usize>::empty().push(n);
    assert(path.contains(n)) by {
        assert(path[0] == n);
    }
    assert(!Seq::<usize>::empty().contains(n));
    assert(graph_value(nodes, path, items@[k]).1);
    lemma_graph_items(nodes, path, items@, items@.len() as int);
    let (js, e) = graph_items(nodes, path, items@, items@.len() as int);
    assert(graph_value(nodes, Seq::empty(), GraphValue::Node(n)) == (Some(Json::Arr(js)), e));
}

/// An object that holds itself: `JSON.stringify` of it reports the
/// circular-structure error.
pub proof fn law_self_holding_object(nodes: Seq<GraphNode>, n: usize, ms: Vec<(Vec<char>, GraphValue)>, k: int)
    requires
        n < nodes.len(),
        nodes[n as int] == GraphNode::Object(ms),
        0 <= k < ms@.len(),
        ms@[k].1 == GraphValue::Node(n),
    ensures
        graph_value(nodes, Seq::empty(), GraphValue::Node(n)).1,
{
    let path = Seq::<usize>::empty().push(n);
    assert(path.contains(n)) by {
        assert(path[0] == n);
    }
    assert(!Seq::<usize>::empty().contains(n));
    assert(graph_value(nodes, path, ms@[k].1).1);
    lemma_graph_members_cycle(nodes, path, ms@, ms@.len() as int);
    let (js, e) = graph_members(nodes, path, ms@, ms@.len() as int);
    assert(graph_value(nodes, Seq::empty(), GraphValue::Node(n)) == (Some(Json::Obj(js)), e));
}

} // verus!
