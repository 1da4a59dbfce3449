use crate::text::push_char;
use crate::trie::Trie;
use vstd::prelude::*;
use vstd::string::StringExecFns;

verus! {

/// The decimal digit for `d`, which is below ten.
pub open spec fn digit(d: nat) -> char {
    seq!['0', '1', '2', '3', '4', '5', '6', '7', '8', '9'][d as int]
}

/// The decimal numeral of `n`, without leading zeros.
pub open spec fn decimal(n: nat) -> Seq<char>
    decreases n,
{
    if n < 10 {
        seq![digit(n)]
    } else {
        decimal(n / 10).push(digit(n % 10))
    }
}

/// The declaration of node `j`, labelled `c`.
pub open spec fn node_line(j: nat, c: char) -> Seq<char> {
    "  Node_"@ + decimal(j) + " [label=\""@ + seq![c] + "\"]\n"@
}

/// The declaration of the edge from node `i` to node `j`, labelled `c`.
pub open spec fn edge_line(i: nat, j: nat, c: char) -> Seq<char> {
    "  Node_"@ + decimal(i) + " -> Node_"@ + decimal(j) + " [label=\""@ + seq![c] + "\"]\n"@
}

/// For the first `k` edges out of node `i`: the declaration of the child,
/// then that of the edge.
pub open spec fn edge_entries(t: Trie, i: int, k: int) -> Seq<char>
    decreases k,
{
    if k <= 0 {
        Seq::empty()
    } else {
        let e = t.edges(i)[k - 1];
        edge_entries(t, i, k - 1) + node_line(e.1 as nat, e.0) + edge_line(i as nat, e.1 as nat, e.0)
    }
}

/// The entries for the edges out of the first `n` nodes.
pub open spec fn node_entries(t: Trie, n: int) -> Seq<char>
    decreases n,
{
    if n <= 0 {
        Seq::empty()
    } else {
        node_entries(t, n - 1) + edge_entries(t, n - 1, t.edges(n - 1).len() as int)
    }
}

/// The Graphviz description of the tree: node `i` of the arena is
/// `Node_i`, the root is labelled `root`, and each other node is declared
/// with its character, followed by the edge that leads to it.
pub open spec fn dot_text(t: Trie) -> Seq<char> {
    "digraph Trie {\n"@ + "  Node_0 [label=\"root\"]\n"@ + node_entries(t, t.size() as int) + "}\n"@
}

/// Appends the decimal numeral of `n`.
fn push_decimal(s: &mut String, n: usize)
    ensures
        final(s)@ == old(s)@ + decimal(n as nat),
    decreases n,
{
    if n >= 10 {
        push_decimal(s, n / 10);
    }
    let d: usize = n % 10;
    let digits = ['0', '1', '2', '3', '4', '5', '6', '7', '8', '9'];
    assert(digits@ == seq!['0', '1', '2', '3', '4', '5', '6', '7', '8', '9']);
    push_char(s, digits[d]);
    proof {
        if n < 10 {
            assert(old(s)@ + decimal(n as nat) =~= old(s)@.push(digit(n as nat)));
        } else {
            assert(old(s)@ + decimal(n as nat) =~= old(s)@ + decimal((n / 10) as nat) + seq![digit(
                (n % 10) as nat,
            )]);
        }
    }
}

/// Appends the declaration of node `j`, labelled `c`.
fn push_node_line(s: &mut String, j: usize, c: char)
    ensures
        final(s)@ == old(s)@ + node_line(j as nat, c),
{
    s.append("  Node_");
    push_decimal(s, j);
    s.append(" [label=\"");
    push_char(s, c);
    s.append("\"]\n");
    assert(s@ =~= old(s)@ + node_line(j as nat, c));
}

/// Appends the declaration of the edge from node `i` to node `j`, labelled `c`.
fn push_edge_line(s: &mut String, i: usize, j: usize, c: char)
    ensures
        final(s)@ == old(s)@ + edge_line(i as nat, j as nat, c),
{
    s.append("  Node_");
    push_decimal(s, i);
    s.append(" -> Node_");
    push_decimal(s, j);
    s.append(" [label=\"");
    push_char(s, c);
    s.append("\"]\n");
    assert(s@ =~= old(s)@ + edge_line(i as nat, j as nat, c));
}

/// Writes the tree as a Graphviz digraph: the root, then for each edge the
/// declaration of its child and the edge itself.
pub fn dump_dot(root: &Trie) -> (r: String)
    requires
        root.wf(),
    ensures
        r@ == dot_text(*root),
{
    let mut out = String::from_str("digraph Trie {\n");
    out.append("  Node_0 [label=\"root\"]\n");
    assert(out@ =~= "digraph Trie {\n"@ + "  Node_0 [label=\"root\"]\n"@ + node_entries(*root, 0));
    let mut i: usize = 0;
    let n = root.node_count();
    while i < n
        invariant
            n == root.size(),
            i <= n,
            out@ == "digraph Trie {\n"@ + "  Node_0 [label=\"root\"]\n"@ + node_entries(*root, i as int),
        decreases n - i,
    {
        let edges = root.children(i);
        let mut k: usize = 0;
        while k < edges.len()
            invariant
                n == root.size(),
                i < n,
                edges@ == root.edges(i as int),
                k <= edges@.len(),
                out@ == "digraph Trie {\n"@ + "  Node_0 [label=\"root\"]\n"@ + node_entries(*root, i as int)
                    + edge_entries(*root, i as int, k as int),
            decreases edges@.len() - k,
        {
            let (c, j) = edges[k];
            let ghost before = out@;
            push_node_line(&mut out, j, c);
            push_edge_line(&mut out, i, j, c);
            proof {
                let e = root.edges(i as int)[k as int];
                assert(e == (c, j));
                let head = "digraph Trie {\n"@ + "  Node_0 [label=\"root\"]\n"@ + node_entries(*root, i as int);
                let done = edge_entries(*root, i as int, k as int);
                assert(edge_entries(*root, i as int, k + 1) == done + node_line(j as nat, c) + edge_line(i as nat, j as nat, c));
                assert(out@ =~= head + edge_entries(*root, i as int, k + 1));
            }
            k = k + 1;
        }
        proof {
            assert(node_entries(*root, i + 1) == node_entries(*root, i as int) + edge_entries(
                *root,
                i as int,
                edges@.len() as int,
            ));
            assert(out@ =~= "digraph Trie {\n"@ + "  Node_0 [label=\"root\"]\n"@ + node_entries(*root, i + 1));
        }
        i = i + 1;
    }
    out.append("}\n");
    assert(out@ =~= dot_text(*root));
    out
}

} // verus!
