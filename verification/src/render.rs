//! Rendering stored values to display text, with an exact character-level
//! specification. A string entry keeps its raw content; every other value
//! renders in the library's canonical display form: integers in decimal,
//! booleans as `true`/`false`, floats and date/times by their stored text,
//! arrays bracketed with comma-separated elements, tables in inline form.
//! Strings inside arrays and tables are quoted, with the usual escapes.

use vstd::prelude::*;
use vstd::string::StrSliceExecFns;
use vstd::string::StringExecFns;

use crate::node::Node;
use crate::numtext::{dec_int, i64_to_decimal};
use crate::value::{
    lemma_nodes_of_index, lemma_table_nodes_of_index, nodes_of, table_nodes_of, Value,
};

verus! {

/// The character for one hexadecimal digit.
pub open spec fn hex_char(d: int) -> char {
    if d == 0 {
        '0'
    } else if d == 1 {
        '1'
    } else if d == 2 {
        '2'
    } else if d == 3 {
        '3'
    } else if d == 4 {
        '4'
    } else if d == 5 {
        '5'
    } else if d == 6 {
        '6'
    } else if d == 7 {
        '7'
    } else if d == 8 {
        '8'
    } else if d == 9 {
        '9'
    } else if d == 10 {
        'A'
    } else if d == 11 {
        'B'
    } else if d == 12 {
        'C'
    } else if d == 13 {
        'D'
    } else if d == 14 {
        'E'
    } else {
        'F'
    }
}

/// Four hexadecimal digits, most significant first.
pub open spec fn hex4(n: int) -> Seq<char> {
    seq![
        hex_char(n / 4096 % 16),
        hex_char(n / 256 % 16),
        hex_char(n / 16 % 16),
        hex_char(n % 16),
    ]
}

/// How one character appears inside a quoted string.
pub open spec fn escape_char(c: char) -> Seq<char> {
    if c == '"' {
        seq!['\\', '"']
    } else if c == '\\' {
        seq!['\\', '\\']
    } else if c == '\u{8}' {
        seq!['\\', 'b']
    } else if c == '\t' {
        seq!['\\', 't']
    } else if c == '\n' {
        seq!['\\', 'n']
    } else if c == '\u{c}' {
        seq!['\\', 'f']
    } else if c == '\r' {
        seq!['\\', 'r']
    } else if (c as int) < 32 || c == '\u{7f}' {
        seq!['\\', 'u'] + hex4(c as int)
    } else {
        seq![c]
    }
}

/// A string's content escaped, from position `i` on.
pub open spec fn escaped_from(s: Seq<char>, i: int) -> Seq<char>
    decreases s.len() - i,
{
    if 0 <= i < s.len() {
        escape_char(s[i]) + escaped_from(s, i + 1)
    } else {
        Seq::empty()
    }
}

/// The canonical display text of a node.
pub open spec fn display_of(n: Node) -> Seq<char>
    decreases n, 0int,
{
    match n {
        Node::Str(s) => seq!['"'] + escaped_from(s, 0) + seq!['"'],
        Node::Int(i) => dec_int(i as int),
        Node::Float(_, t) => t,
        Node::Bool(b) => if b {
            "true"@
        } else {
            "false"@
        },
        Node::Datetime(t) => t,
        Node::Array(es) => seq!['['] + display_list(es, 0) + seq![']'],
        Node::Table(es) => seq!['{', ' '] + display_pairs(es, 0) + seq![' ', '}'],
    }
}

/// Comma-separated display of array elements from position `i` on.
pub open spec fn display_list(es: Seq<Node>, i: int) -> Seq<char>
    decreases es, es.len() - i,
{
    if 0 <= i < es.len() {
        (if i == 0 {
            Seq::<char>::empty()
        } else {
            seq![',', ' ']
        }) + display_of(es[i]) + display_list(es, i + 1)
    } else {
        Seq::empty()
    }
}

/// Comma-separated `name = value` display of table entries from `i` on.
pub open spec fn display_pairs(es: Seq<(Seq<char>, Node)>, i: int) -> Seq<char>
    decreases es, es.len() - i,
    via display_pairs_dec
{
    if 0 <= i < es.len() {
        (if i == 0 {
            Seq::<char>::empty()
        } else {
            seq![',', ' ']
        }) + es[i].0 + seq![' ', '=', ' '] + display_of(es[i].1) + display_pairs(es, i + 1)
    } else {
        Seq::empty()
    }
}

#[via_fn]
proof fn display_pairs_dec(es: Seq<(Seq<char>, Node)>, i: int) {
    if 0 <= i < es.len() {
        assert(decreases_to!(es => es[i]));
        assert(decreases_to!(es[i] => es[i].1));
    }
}

/// What one store entry shows when the store is flattened to strings: a
/// string keeps its raw content, anything else its canonical display text.
pub open spec fn render_entry(n: Node) -> Seq<char> {
    match n {
        Node::Str(s) => s,
        _ => display_of(n),
    }
}

fn hex_digit_str(d: u32) -> (s: &'static str)
    requires
        d < 16,
    ensures
        s@ == seq![hex_char(d as int)],
{
    if d == 0 {
        proof {
            reveal_strlit("0");
            assert("0"@ =~= seq![hex_char(0)]);
        }
        "0"
    } else if d == 1 {
        proof {
            reveal_strlit("1");
            assert("1"@ =~= seq![hex_char(1)]);
        }
        "1"
    } else if d == 2 {
        proof {
            reveal_strlit("2");
            assert("2"@ =~= seq![hex_char(2)]);
        }
        "2"
    } else if d == 3 {
        proof {
            reveal_strlit("3");
            assert("3"@ =~= seq![hex_char(3)]);
        }
        "3"
    } else if d == 4 {
        proof {
            reveal_strlit("4");
            assert("4"@ =~= seq![hex_char(4)]);
        }
        "4"
    } else if d == 5 {
        proof {
            reveal_strlit("5");
            assert("5"@ =~= seq![hex_char(5)]);
        }
        "5"
    } else if d == 6 {
        proof {
            reveal_strlit("6");
            assert("6"@ =~= seq![hex_char(6)]);
        }
        "6"
    } else if d == 7 {
        proof {
            reveal_strlit("7");
            assert("7"@ =~= seq![hex_char(7)]);
        }
        "7"
    } else if d == 8 {
        proof {
            reveal_strlit("8");
            assert("8"@ =~= seq![hex_char(8)]);
        }
        "8"
    } else if d == 9 {
        proof {
            reveal_strlit("9");
            assert("9"@ =~= seq![hex_char(9)]);
        }
        "9"
    } else if d == 10 {
        proof {
            reveal_strlit("A");
            assert("A"@ =~= seq![hex_char(10)]);
        }
        "A"
    } else if d == 11 {
        proof {
            reveal_strlit("B");
            assert("B"@ =~= seq![hex_char(11)]);
        }
        "B"
    } else if d == 12 {
        proof {
            reveal_strlit("C");
            assert("C"@ =~= seq![hex_char(12)]);
        }
        "C"
    } else if d == 13 {
        proof {
            reveal_strlit("D");
            assert("D"@ =~= seq![hex_char(13)]);
        }
        "D"
    } else if d == 14 {
        proof {
            reveal_strlit("E");
            assert("E"@ =~= seq![hex_char(14)]);
        }
        "E"
    } else {
        proof {
            reveal_strlit("F");
            assert("F"@ =~= seq![hex_char(15)]);
        }
        "F"
    }
}

/// The escape text of a character that does not stand for itself.
fn escape_special(c: char) -> (s: String)
    requires
        c == '"' || c == '\\' || (c as int) < 32 || c == '\u{7f}',
    ensures
        s@ == escape_char(c),
{
    if c == '"' {
        let s = "\\\"".to_owned();
        proof {
            reveal_strlit("\\\"");
            assert(s@ =~= escape_char(c));
        }
        s
    } else if c == '\\' {
        let s = "\\\\".to_owned();
        proof {
            reveal_strlit("\\\\");
            assert(s@ =~= escape_char(c));
        }
        s
    } else if c == '\u{8}' {
        let s = "\\b".to_owned();
        proof {
            reveal_strlit("\\b");
            assert(s@ =~= escape_char(c));
        }
        s
    } else if c == '\t' {
        let s = "\\t".to_owned();
        proof {
            reveal_strlit("\\t");
            assert(s@ =~= escape_char(c));
        }
        s
    } else if c == '\n' {
        let s = "\\n".to_owned();
        proof {
            reveal_strlit("\\n");
            assert(s@ =~= escape_char(c));
        }
        s
    } else if c == '\u{c}' {
        let s = "\\f".to_owned();
        proof {
            reveal_strlit("\\f");
            assert(s@ =~= escape_char(c));
        }
        s
    } else if c == '\r' {
        let s = "\\r".to_owned();
        proof {
            reveal_strlit("\\r");
            assert(s@ =~= escape_char(c));
        }
        s
    } else {
        let code: u32 = c as u32;
        let mut s = "\\u".to_owned();
        proof {
            reveal_strlit("\\u");
            assert(code == c as int);
        }
        s.append(hex_digit_str(code / 4096 % 16));
        s.append(hex_digit_str(code / 256 % 16));
        s.append(hex_digit_str(code / 16 % 16));
        s.append(hex_digit_str(code % 16));
        proof {
            assert(s@ =~= escape_char(c));
        }
        s
    }
}

/// A string's content as it appears inside quotes.
#[verifier::loop_isolation(false)]
fn escaped_text(raw: &str) -> (s: String)
    ensures
        s@ == escaped_from(raw@, 0),
{
    let n = raw.unicode_len();
    let mut s = String::new();
    let mut i: usize = 0;
    while i < n
        invariant
            i <= n,
            n == raw@.len(),
            s@ + escaped_from(raw@, i as int) == escaped_from(raw@, 0),
        decreases n - i,
    {
        let ghost pre = s@;
        let c = raw.get_char(i);
        if c == '"' || c == '\\' || c < ' ' || c == '\u{7f}' {
            let e = escape_special(c);
            s.append(e.as_str());
        } else {
            s.append(raw.substring_char(i, i + 1));
            proof {
                assert(raw@.subrange(i as int, i + 1) =~= seq![raw@[i as int]]);
                assert(escape_char(c) =~= seq![c]);
            }
        }
        proof {
            assert(s@ == pre + escape_char(raw@[i as int]));
            assert(s@ + escaped_from(raw@, i + 1) =~= pre + escaped_from(raw@, i as int));
        }
        i += 1;
    }
    proof {
        assert(s@ + escaped_from(raw@, i as int) =~= s@);
    }
    s
}

/// The canonical display text of a value.
#[verifier::loop_isolation(false)]
pub fn display_value(v: &Value) -> (s: String)
    ensures
        s@ == display_of(v@),
    decreases *v,
{
    match v {
        Value::Str(raw) => {
            let mut s = "\"".to_owned();
            proof {
                reveal_strlit("\"");
                assert("\""@ =~= seq!['"']);
            }
            let body = escaped_text(raw.as_str());
            s.append(body.as_str());
            s.append("\"");
            proof {
                assert(s@ =~= display_of(v@));
            }
            s
        },
        Value::Int(i) => i64_to_decimal(*i),
        Value::Float(_, t) => t.clone(),
        Value::Bool(b) => {
            if *b {
                "true".to_owned()
            } else {
                "false".to_owned()
            }
        },
        Value::Datetime(t) => t.clone(),
        Value::Array(vs) => {
            let ghost es = nodes_of(vs@, 0);
            proof {
                lemma_nodes_of_index(vs@, 0);
            }
            let mut s = "[".to_owned();
            proof {
                reveal_strlit("[");
                reveal_strlit("]");
                reveal_strlit(", ");
                assert("["@ =~= seq!['[']);
                assert("]"@ =~= seq![']']);
                assert(", "@ =~= seq![',', ' ']);
            }
            let n = vs.len();
            let mut j: usize = 0;
            while j < n
                invariant
                    j <= n,
                    s@ + display_list(es, j as int) == seq!['['] + display_list(es, 0),
                decreases n - j,
            {
                let ghost pre = s@;
                if j > 0 {
                    s.append(", ");
                }
                proof {
                    assert(decreases_to!(*v => v->Array_0));
                    assert(decreases_to!(*vs => vs@));
                    assert(decreases_to!(vs@ => vs@[j as int]));
                }
                let e = display_value(&vs[j]);
                s.append(e.as_str());
                proof {
                    let sep = if j == 0 {
                        Seq::<char>::empty()
                    } else {
                        seq![',', ' ']
                    };
                    assert(s@ =~= pre + sep + display_of(es[j as int]));
                    assert(s@ + display_list(es, j + 1) =~= pre + display_list(es, j as int));
                }
                j += 1;
            }
            s.append("]");
            proof {
                assert(display_list(es, n as int) =~= Seq::<char>::empty());
                assert(s@ =~= display_of(v@));
            }
            s
        },
        Value::Table(tes) => {
            let ghost es = table_nodes_of(tes@, 0);
            proof {
                lemma_table_nodes_of_index(tes@, 0);
            }
            let mut s = "{ ".to_owned();
            proof {
                reveal_strlit("{ ");
                reveal_strlit(" }");
                reveal_strlit(", ");
                reveal_strlit(" = ");
                assert("{ "@ =~= seq!['{', ' ']);
                assert(" }"@ =~= seq![' ', '}']);
                assert(", "@ =~= seq![',', ' ']);
                assert(" = "@ =~= seq![' ', '=', ' ']);
            }
            let n = tes.len();
            let mut j: usize = 0;
            while j < n
                invariant
                    j <= n,
                    s@ + display_pairs(es, j as int) == seq!['{', ' '] + display_pairs(es, 0),
                decreases n - j,
            {
                let ghost pre = s@;
                if j > 0 {
                    s.append(", ");
                }
                let pair = &tes[j];
                s.append(pair.0.as_str());
                s.append(" = ");
                proof {
                    assert(decreases_to!(*v => v->Table_0));
                    assert(decreases_to!(*tes => tes@));
                    assert(decreases_to!(tes@ => tes@[j as int]));
                    assert(decreases_to!(tes@[j as int] => tes@[j as int].1));
                }
                let e = display_value(&pair.1);
                s.append(e.as_str());
                proof {
                    let sep = if j == 0 {
                        Seq::<char>::empty()
                    } else {
                        seq![',', ' ']
                    };
                    assert(s@ =~= pre + sep + es[j as int].0 + seq![' ', '=', ' '] + display_of(
                        es[j as int].1,
                    ));
                    assert(s@ + display_pairs(es, j + 1) =~= pre + display_pairs(es, j as int));
                }
                j += 1;
            }
            s.append(" }");
            proof {
                assert(display_pairs(es, n as int) =~= Seq::<char>::empty());
                assert(s@ =~= display_of(v@));
            }
            s
        },
    }
}

/// What one store entry shows when flattened to strings.
pub fn render_value(v: &Value) -> (s: String)
    ensures
        s@ == render_entry(v@),
{
    match v {
        Value::Str(raw) => raw.clone(),
        _ => display_value(v),
    }
}

} // verus!
