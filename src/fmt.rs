use vstd::prelude::*;
use vstd::string::*;

use crate::{AdjacencyList, Edge, Node};

verus! {

pub open spec fn digit_char(d: nat) -> char {
    if d == 0 {
        '0'
    } else if d == 1 {
        '1'
    } else if d == 2 {
        '2'
    } else if d == 3 {
        '3'
    } else if d == 4 {
        '4'
    } else if d == 5 {
        '5'
    } else if d == 6 {
        '6'
    } else if d == 7 {
        '7'
    } else if d == 8 {
        '8'
    } else {
        '9'
    }
}

/// The decimal digits of `n`, without leading zeros.
pub open spec fn decimal(n: nat) -> Seq<char>
    decreases n,
{
    if n < 10 {
        seq![digit_char(n)]
    } else {
        decimal(n / 10).push(digit_char(n % 10))
    }
}

/// How a node is named in the text: `N` and its index.
pub open spec fn node_label(n: Node) -> Seq<char> {
    seq!['N'] + decimal(n.0 as nat)
}

/// One line per node, for the first `count` nodes.
pub open spec fn node_lines(count: nat) -> Seq<char>
    decreases count,
{
    if count == 0 {
        Seq::empty()
    } else {
        node_lines((count - 1) as nat) + node_label(Node((count - 1) as usize)) + seq!['\n']
    }
}

pub open spec fn edge_line(a: Node, e: Edge) -> Seq<char> {
    node_label(a) + seq![' ', '-', '>', ' '] + node_label(e.node) + seq![
        ' ',
        '[',
        'l',
        'a',
        'b',
        'e',
        'l',
        ' ',
        '=',
        ' ',
        '"',
    ] + decimal(e.weight as nat) + seq!['"', ']', ';', '\n']
}

/// One line per edge out of `a`, in list order.
pub open spec fn edge_lines(a: Node, es: Seq<Edge>) -> Seq<char>
    decreases es.len(),
{
    if es.len() == 0 {
        Seq::empty()
    } else {
        edge_lines(a, es.drop_last()) + edge_line(a, es.last())
    }
}

/// The edge lines of the first `count` nodes.
pub open spec fn graph_edge_lines(g: Seq<Seq<Edge>>, count: nat) -> Seq<char>
    decreases count,
{
    if count == 0 {
        Seq::empty()
    } else {
        graph_edge_lines(g, (count - 1) as nat) + edge_lines(
            Node((count - 1) as usize),
            g[count - 1],
        )
    }
}

/// The graph in DOT: a digraph named `G` with a line per node, then a line
/// per edge labelled with its weight.
pub open spec fn dot_text(g: Seq<Seq<Edge>>) -> Seq<char> {
    seq!['d', 'i', 'g', 'r', 'a', 'p', 'h', ' ', 'G', ' ', '{', '\n'] + node_lines(g.len())
        + graph_edge_lines(g, g.len()) + seq!['\n', '}', '\n']
}

fn digit_str(d: u64) -> (r: &'static str)
    requires
        d < 10,
    ensures
        r@ == seq![digit_char(d as nat)],
{
    proof {
        reveal_strlit("0");
        reveal_strlit("1");
        reveal_strlit("2");
        reveal_strlit("3");
        reveal_strlit("4");
        reveal_strlit("5");
        reveal_strlit("6");
        reveal_strlit("7");
        reveal_strlit("8");
        reveal_strlit("9");
    }
    match d {
        0 => "0",
        1 => "1",
        2 => "2",
        3 => "3",
        4 => "4",
        5 => "5",
        6 => "6",
        7 => "7",
        8 => "8",
        _ => "9",
    }
}

fn write_decimal(n: u64, out: &mut String)
    ensures
        final(out)@ == old(out)@ + decimal(n as nat),
    decreases n,
{
    if n >= 10 {
        write_decimal(n / 10, out);
    }
    out.append(digit_str(n % 10));
    assert(final(out)@ =~= old(out)@ + decimal(n as nat)) by {
        if n >= 10 {
        }
    }
}

fn write_label(n: Node, out: &mut String)
    ensures
        final(out)@ == old(out)@ + node_label(n),
{
    proof {
        reveal_strlit("N");
    }
    out.append("N");
    write_decimal(n.0 as u64, out);
    assert(final(out)@ =~= old(out)@ + node_label(n));
}

fn write_header(name: &str, out: &mut String)
    ensures
        final(out)@ == old(out)@ + seq!['d', 'i', 'g', 'r', 'a', 'p', 'h', ' '] + name@ + seq![
            ' ',
            '{',
            '\n',
        ],
{
    proof {
        reveal_strlit("digraph ");
        reveal_strlit(" {\n");
    }
    out.append("digraph ");
    out.append(name);
    out.append(" {\n");
}

fn write_footer(out: &mut String)
    ensures
        final(out)@ == old(out)@ + seq!['\n', '}', '\n'],
{
    proof {
        reveal_strlit("\n}\n");
    }
    out.append("\n}\n");
}

/// Appends `g` to `out` in DOT.
pub fn write(g: &AdjacencyList, out: &mut String)
    ensures
        final(out)@ == old(out)@ + dot_text(g@),
{
    proof {
        reveal_strlit("G");
    }
    write_header("G", out);
    let ghost head = out@;
    let n = g.len();
    let mut i: usize = 0;
    while i < n
        invariant
            n == g@.len(),
            i <= n,
            out@ == head + node_lines(i as nat),
        decreases n - i,
    {
        let ghost prev = out@;
        write_label(Node(i), out);
        out.append("\n");
        proof {
            reveal_strlit("\n");
        }
        assert(node_lines((i + 1) as nat) == node_lines(i as nat) + node_label(Node(i)) + seq!['\n']);
        assert(out@ =~= prev + node_label(Node(i)) + seq!['\n']);
        i = i + 1;
        assert(out@ =~= head + node_lines(i as nat));
    }
    let ghost mid = out@;
    assert(mid =~= head + node_lines(n as nat) + graph_edge_lines(g@, 0));
    let mut i: usize = 0;
    while i < n
        invariant
            n == g@.len(),
            i <= n,
            out@ == head + node_lines(n as nat) + graph_edge_lines(g@, i as nat),
        decreases n - i,
    {
        let a = Node(i);
        let edges = g.edges(a);
        let ghost before = out@;
        let mut k: usize = 0;
        assert(edges@.subrange(0, 0) =~= Seq::<Edge>::empty());
        while k < edges.len()
            invariant
                k <= edges@.len(),
                out@ == before + edge_lines(a, edges@.subrange(0, k as int)),
            decreases edges@.len() - k,
        {
            let e = edges[k];
            let ghost prev = out@;
            write_label(a, out);
            out.append(" -> ");
            write_label(e.node, out);
            out.append(" [label = \"");
            write_decimal(e.weight, out);
            out.append("\"];\n");
            proof {
                reveal_strlit(" -> ");
                reveal_strlit(" [label = \"");
                reveal_strlit("\"];\n");
            }
            assert(out@ =~= prev + edge_line(a, e));
            assert(edges@.subrange(0, k + 1).drop_last() =~= edges@.subrange(0, k as int));
            assert(edges@.subrange(0, k + 1).last() == e);
            k = k + 1;
            assert(out@ =~= before + edge_lines(a, edges@.subrange(0, k as int)));
        }
        assert(edges@.subrange(0, edges@.len() as int) =~= edges@);
        i = i + 1;
        assert(out@ =~= head + node_lines(n as nat) + graph_edge_lines(g@, i as nat));
    }
    write_footer(out);
    assert(old(out)@ + dot_text(g@) =~= out@);
}

/// `g` in DOT.
pub fn to_dot(g: &AdjacencyList) -> (r: String)
    ensures
        r@ == dot_text(g@),
{
    let mut out = String::new();
    write(g, &mut out);
    assert(out@ =~= dot_text(g@));
    out
}

} // verus!
