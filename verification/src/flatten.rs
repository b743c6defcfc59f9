//! `Array.prototype.flat`: the elements of nested arrays are spread into
//! their parent, down to a given depth. A non-array element (holes read as
//! `undefined` before flattening) is an `Item`; an array element is a
//! `List` of its own elements.
use vstd::prelude::*;

verus! {

/// A nested array as a mathematical tree.
pub enum Tree<T> {
    Leaf(T),
    Node(Seq<Tree<T>>),
}

/// An element of a nested array.
#[derive(PartialEq, Eq, Debug)]
pub enum Nested<T> {
    /// A value that is not an array.
    Item(T),
    /// An array, by its elements.
    List(Vec<Nested<T>>),
}

/// The tree an element stands for.
pub open spec fn tree_of<T>(v: Nested<T>) -> Tree<T>
    decreases v,
{
    match v {
        Nested::Item(x) => Tree::Leaf(x),
        Nested::List(items) => Tree::Node(
            Seq::new(
                items@.len(),
                |i: int|
                    if 0 <= i < items@.len() {
                        tree_of(items@[i])
                    } else {
                        Tree::Node(Seq::empty())
                    },
            ),
        ),
    }
}

/// The trees a list of elements stands for.
pub open spec fn trees_of<T>(items: Seq<Nested<T>>) -> Seq<Tree<T>> {
    Seq::new(items.len(), |i: int| tree_of(items[i]))
}

/// `s` flattened to `depth`: while depth remains, every array element is
/// replaced by its own elements flattened one level less; other elements
/// stay as they are.
pub open spec fn flat_spec<T>(s: Seq<Tree<T>>, depth: nat) -> Seq<Tree<T>>
    decreases depth, s.len(),
{
    if s.len() == 0 {
        Seq::empty()
    } else {
        let e = s.last();
        flat_spec(s.drop_last(), depth) + if depth > 0 && e is Node {
            flat_spec(e->Node_0, (depth - 1) as nat)
        } else {
            seq![e]
        }
    }
}

proof fn lemma_trees_of_node<T>(items: Vec<Nested<T>>)
    ensures
        tree_of(Nested::List(items)) == Tree::Node(trees_of(items@)),
{
    assert(tree_of(Nested::List(items))->Node_0 =~= trees_of(items@));
}

proof fn lemma_trees_of_concat<T>(a: Seq<Nested<T>>, b: Seq<Nested<T>>)
    ensures
        trees_of(a + b) == trees_of(a) + trees_of(b),
{
    assert(trees_of(a + b) =~= trees_of(a) + trees_of(b));
}

/// A copy of an element.
fn copy_nested<T: Copy>(x: &Nested<T>) -> (r: Nested<T>)
    ensures
        tree_of(r) == tree_of(*x),
    decreases x,
{
    match x {
        Nested::Item(v) => Nested::Item(*v),
        Nested::List(items) => {
            let mut out: Vec<Nested<T>> = Vec::new();
            let mut i: usize = 0;
            while i < items.len()
                invariant
                    *x == Nested::List(*items),
                    i <= items@.len(),
                    trees_of(out@) == trees_of(items@).take(i as int),
                decreases items.len() - i,
            {
                proof {
                    assert(decreases_to!(*x => (*x)->List_0));
                    assert(decreases_to!(*items => items@));
                    assert(decreases_to!(items@ => items@[i as int]));
                }
                let c = copy_nested(&items[i]);
                let ghost before = out@;
                out.push(c);
                proof {
                    lemma_trees_of_concat(before, seq![c]);
                    assert(out@ =~= before + seq![c]);
                    assert(trees_of(items@).take(i + 1) =~= trees_of(items@).take(i as int).push(
                        tree_of(items@[i as int]),
                    ));
                    assert(trees_of(seq![c]) =~= seq![tree_of(c)]);
                }
                i = i + 1;
            }
            proof {
                assert(trees_of(items@).take(items@.len() as int) =~= trees_of(items@));
                lemma_trees_of_node(out);
                lemma_trees_of_node(*items);
            }
            Nested::List(out)
        },
    }
}

/// `Array.prototype.flat` on the elements `items`, to `depth` levels.
pub fn flatten<T: Copy>(items: &Vec<Nested<T>>, depth: u32) -> (r: Vec<Nested<T>>)
    ensures
        trees_of(r@) == flat_spec(trees_of(items@), depth as nat),
    decreases depth,
{
    let ghost ts = trees_of(items@);
    let mut out: Vec<Nested<T>> = Vec::new();
    let mut i: usize = 0;
    while i < items.len()
        invariant
            i <= items@.len(),
            ts == trees_of(items@),
            trees_of(out@) == flat_spec(ts.take(i as int), depth as nat),
        decreases items.len() - i,
    {
        let ghost before = out@;
        let ghost e = ts[i as int];
        proof {
            assert(ts.take(i + 1).drop_last() =~= ts.take(i as int));
            assert(ts.take(i + 1).last() == e);
        }
        match &items[i] {
            Nested::List(v) if depth > 0 => {
                let mut sub = flatten(v, depth - 1);
                let ghost sv = sub@;
                out.append(&mut sub);
                proof {
                    lemma_trees_of_node(*v);
                    lemma_trees_of_concat(before, sv);
                }
            },
            _ => {
                let c = copy_nested(&items[i]);
                out.push(c);
                proof {
                    lemma_trees_of_concat(before, seq![c]);
                    assert(out@ =~= before + seq![c]);
                    assert(trees_of(seq![c]) =~= seq![e]);
                    if depth > 0 {
                        if let Nested::List(v) = items@[i as int] {
                            assert(false);
                        }
                    }
                }
            },
        }
        i = i + 1;
    }
    proof {
        assert(ts.take(items@.len() as int) =~= ts);
    }
    out
}

proof fn lemma_flat_concat<T>(x: Seq<Tree<T>>, y: Seq<Tree<T>>, d: nat)
    ensures
        flat_spec(x + y, d) == flat_spec(x, d) + flat_spec(y, d),
    decreases y.len(),
{
    if y.len() == 0 {
        assert(x + y =~= x);
        assert(flat_spec(x, d) + flat_spec(y, d) =~= flat_spec(x, d));
    } else {
        assert((x + y).drop_last() =~= x + y.drop_last());
        assert((x + y).last() == y.last());
        lemma_flat_concat(x, y.drop_last(), d);
    }
}

proof fn lemma_flat_single<T>(e: Tree<T>, d: nat)
    ensures
        flat_spec(seq![e], d) == (if d > 0 && e is Node {
            flat_spec(e->Node_0, (d - 1) as nat)
        } else {
            seq![e]
        }),
{
    assert(seq![e].drop_last() =~= Seq::<Tree<T>>::empty());
    assert(flat_spec(Seq::<Tree<T>>::empty(), d) == Seq::<Tree<T>>::empty());
    assert(flat_spec(seq![e].drop_last(), d) == Seq::<Tree<T>>::empty());
    assert(seq![e].last() == e);
    let tail = if d > 0 && e is Node {
        flat_spec(e->Node_0, (d - 1) as nat)
    } else {
        seq![e]
    };
    assert(Seq::<Tree<T>>::empty() + tail =~= tail);
}

/// Flattening to depth 0 changes nothing.
pub proof fn law_flat_zero<T>(s: Seq<Tree<T>>)
    ensures
        flat_spec(s, 0) == s,
    decreases s.len(),
{
    if s.len() > 0 {
        law_flat_zero(s.drop_last());
        assert(s.drop_last().push(s.last()) =~= s);
    } else {
        assert(s =~= Seq::<Tree<T>>::empty());
    }
}

/// Flattening `a` levels and then `b` more is flattening `a + b` levels.
pub proof fn law_flat_compose<T>(s: Seq<Tree<T>>, a: nat, b: nat)
    ensures
        flat_spec(flat_spec(s, a), b) == flat_spec(s, a + b),
    decreases a, s.len(),
{
    if s.len() > 0 {
        let e = s.last();
        let front = s.drop_last();
        let p = if a > 0 && e is Node {
            flat_spec(e->Node_0, (a - 1) as nat)
        } else {
            seq![e]
        };
        law_flat_compose(front, a, b);
        lemma_flat_concat(flat_spec(front, a), p, b);
        if a > 0 && e is Node {
            law_flat_compose(e->Node_0, (a - 1) as nat, b);
            assert((a - 1) as nat + b == (a + b - 1) as nat);
        } else {
            lemma_flat_single(e, b);
            if e is Node {
                assert(a == 0);
            }
        }
    }
}

} // verus!
