//! The executable tree value: what the external parser's output is carried
//! as inside the library. Tables are ordered lists of named children, arrays
//! are ordered lists of values, and scalars are plain data. A float carries
//! the bits of its machine representation and its decimal text, fixed when
//! the document was parsed; a date/time carries its canonical text.

use vstd::prelude::*;

use crate::node::Node;

verus! {

/// One parsed tree value.
#[derive(Debug)]
pub enum Value {
    /// A string scalar, kept as its raw content.
    Str(String),
    /// An integer scalar.
    Int(i64),
    /// A float scalar: the bits of its machine representation, and its
    /// decimal text.
    Float(u64, String),
    /// A boolean scalar.
    Bool(bool),
    /// A date/time scalar, kept as its canonical text.
    Datetime(String),
    /// An ordered sequence of values.
    Array(Vec<Value>),
    /// An ordered mapping of names to child values.
    Table(Vec<(String, Value)>),
}

/// The node of one tree value.
pub open spec fn value_node(v: Value) -> Node
    decreases v, 0int,
    via value_node_dec
{
    match v {
        Value::Str(s) => Node::Str(s@),
        Value::Int(i) => Node::Int(i),
        Value::Float(bits, text) => Node::Float(bits, text@),
        Value::Bool(b) => Node::Bool(b),
        Value::Datetime(s) => Node::Datetime(s@),
        Value::Array(vs) => Node::Array(nodes_of(vs@, 0)),
        Value::Table(es) => Node::Table(table_nodes_of(es@, 0)),
    }
}

#[via_fn]
proof fn value_node_dec(v: Value) {
    match v {
        Value::Array(vs) => {
            assert(decreases_to!(v => vs));
            assert(decreases_to!(vs => vs@));
        },
        Value::Table(es) => {
            assert(decreases_to!(v => es));
            assert(decreases_to!(es => es@));
        },
        _ => {},
    }
}

/// The nodes of the array elements from position `i` on.
pub open spec fn nodes_of(es: Seq<Value>, i: int) -> Seq<Node>
    decreases es, es.len() - i,
    via nodes_of_dec
{
    if 0 <= i < es.len() {
        seq![value_node(es[i])] + nodes_of(es, i + 1)
    } else {
        Seq::empty()
    }
}

#[via_fn]
proof fn nodes_of_dec(es: Seq<Value>, i: int) {
    if 0 <= i < es.len() {
        assert(decreases_to!(es => es[i]));
    }
}

/// The named nodes of the table entries from position `i` on.
pub open spec fn table_nodes_of(es: Seq<(String, Value)>, i: int) -> Seq<(Seq<char>, Node)>
    decreases es, es.len() - i,
    via table_nodes_of_dec
{
    if 0 <= i < es.len() {
        seq![(es[i].0@, value_node(es[i].1))] + table_nodes_of(es, i + 1)
    } else {
        Seq::empty()
    }
}

#[via_fn]
proof fn table_nodes_of_dec(es: Seq<(String, Value)>, i: int) {
    if 0 <= i < es.len() {
        assert(decreases_to!(es => es[i]));
        assert(decreases_to!(es[i] => es[i].1));
    }
}

impl View for Value {
    type V = Node;

    open spec fn view(&self) -> Node {
        value_node(*self)
    }
}

/// `nodes_of(es, i)` holds exactly the element nodes from position `i` on.
pub proof fn lemma_nodes_of_index(es: Seq<Value>, i: int)
    requires
        0 <= i <= es.len(),
    ensures
        nodes_of(es, i).len() == es.len() - i,
        forall|j: int| 0 <= j < es.len() - i ==> nodes_of(es, i)[j] == es[i + j]@,
    decreases es.len() - i,
{
    if i < es.len() {
        lemma_nodes_of_index(es, i + 1);
    }
}

/// `table_nodes_of(es, i)` holds exactly the named entry nodes from position
/// `i` on.
pub proof fn lemma_table_nodes_of_index(es: Seq<(String, Value)>, i: int)
    requires
        0 <= i <= es.len(),
    ensures
        table_nodes_of(es, i).len() == es.len() - i,
        forall|j: int|
            0 <= j < es.len() - i ==> table_nodes_of(es, i)[j] == (es[i + j].0@, es[i + j].1@),
    decreases es.len() - i,
{
    if i < es.len() {
        lemma_table_nodes_of_index(es, i + 1);
    }
}

impl Value {
    /// The kind of a node, as short text.
    pub open spec fn kind_text(n: Node) -> Seq<char> {
        match n {
            Node::Str(_) => "string"@,
            Node::Int(_) => "integer"@,
            Node::Float(_, _) => "float"@,
            Node::Bool(_) => "boolean"@,
            Node::Datetime(_) => "datetime"@,
            Node::Array(_) => "array"@,
            Node::Table(_) => "table"@,
        }
    }

    /// Short text naming the kind of this value.
    pub fn type_str(&self) -> (s: &'static str)
        ensures
            s@ == Self::kind_text(self@),
    {
        match *self {
            Value::Str(_) => "string",
            Value::Int(_) => "integer",
            Value::Float(_, _) => "float",
            Value::Bool(_) => "boolean",
            Value::Datetime(_) => "datetime",
            Value::Array(_) => "array",
            Value::Table(_) => "table",
        }
    }

    /// Whether this value is a table.
    pub fn is_table(&self) -> (r: bool)
        ensures
            r == (self@ is Table),
    {
        match *self {
            Value::Table(_) => true,
            _ => false,
        }
    }
}

/// A deep copy whose node is the node of the original.
pub fn clone_value(v: &Value) -> (r: Value)
    ensures
        r@ == v@,
    decreases *v,
{
    match v {
        Value::Str(s) => Value::Str(s.clone()),
        Value::Int(i) => Value::Int(*i),
        Value::Float(bits, text) => Value::Float(*bits, text.clone()),
        Value::Bool(b) => Value::Bool(*b),
        Value::Datetime(s) => Value::Datetime(s.clone()),
        Value::Array(vs) => {
            let mut out: Vec<Value> = Vec::new();
            let mut j: usize = 0;
            while j < vs.len()
                invariant
                    *v == Value::Array(*vs),
                    j <= vs.len(),
                    out@.len() == j,
                    forall|p: int| 0 <= p < j ==> out@[p]@ == vs@[p]@,
                decreases vs.len() - j,
            {
                proof {
                    assert(*v == Value::Array(*vs));
                    assert(decreases_to!(*v => v->Array_0));
                    assert(decreases_to!(*vs => vs@));
                    assert(decreases_to!(vs@ => vs@[j as int]));
                    assert(decreases_to!(*v => vs@[j as int]));
                }
                out.push(clone_value(&vs[j]));
                j += 1;
            }
            proof {
                lemma_nodes_of_index(out@, 0);
                lemma_nodes_of_index(vs@, 0);
                assert(nodes_of(out@, 0) =~= nodes_of(vs@, 0));
            }
            Value::Array(out)
        },
        Value::Table(es) => {
            let mut out: Vec<(String, Value)> = Vec::new();
            let mut j: usize = 0;
            while j < es.len()
                invariant
                    *v == Value::Table(*es),
                    j <= es.len(),
                    out@.len() == j,
                    forall|p: int|
                        0 <= p < j ==> out@[p].0@ == es@[p].0@ && out@[p].1@ == es@[p].1@,
                decreases es.len() - j,
            {
                proof {
                    assert(*v == Value::Table(*es));
                    assert(decreases_to!(*v => v->Table_0));
                    assert(decreases_to!(*es => es@));
                    assert(decreases_to!(es@ => es@[j as int]));
                    assert(decreases_to!(es@[j as int] => es@[j as int].1));
                    assert(decreases_to!(*v => es@[j as int].1));
                }
                let pair = &es[j];
                out.push((pair.0.clone(), clone_value(&pair.1)));
                j += 1;
            }
            proof {
                lemma_table_nodes_of_index(out@, 0);
                lemma_table_nodes_of_index(es@, 0);
                assert(table_nodes_of(out@, 0) =~= table_nodes_of(es@, 0));
            }
            Value::Table(out)
        },
    }
}

} // verus!
