use vstd::prelude::*;

verus! {

/// True when `p` is the path of some node of the prefix tree of `words`:
/// the empty path, or a prefix of an inserted word.
pub open spec fn is_path(words: Set<Seq<char>>, p: Seq<char>) -> bool {
    p.len() == 0 || exists|w: Seq<char>| words.contains(w) && p.is_prefix_of(w)
}

/// The path that a descent along `p` reaches: it follows `p` one character
/// at a time and stops at the first character that has no edge.
pub open spec fn reach(words: Set<Seq<char>>, p: Seq<char>) -> Seq<char>
    decreases p.len(),
{
    if p.len() == 0 {
        p
    } else {
        let q = reach(words, p.drop_last());
        if q == p.drop_last() && is_path(words, p) {
            p
        } else {
            q
        }
    }
}

/// A descent along `p` reaches a prefix of `p`.
pub proof fn lemma_reach_is_prefix(words: Set<Seq<char>>, p: Seq<char>)
    ensures
        reach(words, p).is_prefix_of(p),
    decreases p.len(),
{
    if p.len() > 0 {
        lemma_reach_is_prefix(words, p.drop_last());
    }
}

/// Every prefix of a path is a path.
pub proof fn lemma_path_prefix_closed(words: Set<Seq<char>>, p: Seq<char>, q: Seq<char>)
    requires
        is_path(words, p),
        q.is_prefix_of(p),
    ensures
        is_path(words, q),
{
    if q.len() > 0 {
        let w = choose|w: Seq<char>| words.contains(w) && p.is_prefix_of(w);
        assert(q.is_prefix_of(w));
    }
}

/// A descent along a path of the tree follows it to its end.
pub proof fn lemma_reach_path(words: Set<Seq<char>>, p: Seq<char>)
    requires
        is_path(words, p),
    ensures
        reach(words, p) == p,
    decreases p.len(),
{
    if p.len() > 0 {
        lemma_path_prefix_closed(words, p, p.drop_last());
        lemma_reach_path(words, p.drop_last());
    }
}

/// The paths of `words` with `q` added are those of `words` and the prefixes of `q`.
proof fn lemma_is_path_insert(words: Set<Seq<char>>, q: Seq<char>)
    ensures
        forall|p: Seq<char>| #[trigger]
            is_path(words.insert(q), p) == (is_path(words, p) || p.is_prefix_of(q)),
{
    assert forall|p: Seq<char>| #[trigger]
        is_path(words.insert(q), p) == (is_path(words, p) || p.is_prefix_of(q)) by {
        if is_path(words.insert(q), p) && p.len() > 0 {
            let v = choose|v: Seq<char>| words.insert(q).contains(v) && p.is_prefix_of(v);
            if v != q {
                assert(words.contains(v));
            }
        }
        if is_path(words, p) && p.len() > 0 {
            let v = choose|v: Seq<char>| words.contains(v) && p.is_prefix_of(v);
            assert(words.insert(q).contains(v));
        }
        if p.is_prefix_of(q) && p.len() > 0 {
            assert(words.insert(q).contains(q));
        }
    }
}

/// Following an existing node one character further keeps the paths
/// covering the words together with the text walked so far.
proof fn lemma_covers_step(
    paths: Seq<Seq<char>>,
    words: Set<Seq<char>>,
    before: Seq<char>,
    after: Seq<char>,
    grow: bool,
)
    requires
        covers(paths, words.insert(before)),
        after.len() > 0,
        after.drop_last() == before,
        grow ==> forall|j: int| 0 <= j < paths.len() ==> #[trigger] paths[j] != after,
        !grow ==> exists|j: int| 0 <= j < paths.len() && #[trigger] paths[j] == after,
    ensures
        grow ==> covers(paths.push(after), words.insert(after)),
        !grow ==> covers(paths, words.insert(after)),
        grow ==> !is_path(words.insert(before), after),
{
    lemma_is_path_insert(words, before);
    lemma_is_path_insert(words, after);
    assert(before.is_prefix_of(after));
    let paths2 = if grow { paths.push(after) } else { paths };
    assert forall|p: Seq<char>| #[trigger] is_path(words.insert(before), p) implies is_path(
        words.insert(after),
        p,
    ) by {
        if p.is_prefix_of(before) {
            assert(p.is_prefix_of(after));
        }
    }
    assert forall|i: int| 0 <= i < paths2.len() implies is_path(
        words.insert(after),
        #[trigger] paths2[i],
    ) by {
        if i < paths.len() {
            assert(paths2[i] == paths[i]);
            assert(is_path(words.insert(before), paths[i]));
        } else {
            assert(paths2[i] == after);
            assert(after.is_prefix_of(after));
        }
    }
    assert forall|p: Seq<char>| #[trigger] is_path(words.insert(after), p) implies exists|i: int|
        0 <= i < paths2.len() && #[trigger] paths2[i] == p by {
        if p == after {
            if grow {
                assert(paths2[paths.len() as int] == p);
            }
        } else {
            if p.is_prefix_of(after) {
                if p.len() == after.len() {
                    assert(p =~= after);
                }
                assert(p =~= before.subrange(0, p.len() as int));
                assert(p.is_prefix_of(before));
            }
            assert(is_path(words.insert(before), p));
            let i = choose|i: int| 0 <= i < paths.len() && #[trigger] paths[i] == p;
            assert(paths2[i] == p);
        }
    }
    if grow && is_path(words.insert(before), after) {
        let j = choose|j: int| 0 <= j < paths.len() && #[trigger] paths[j] == after;
    }
}

/// The edge `(c, j)` out of node `i` leads to a later node spelling the
/// path of `i` followed by `c`.
proof fn lemma_edge(nodes: Seq<Node>, paths: Seq<Seq<char>>, i: int, c: char, j: usize)
    requires
        tree_shaped(nodes, paths),
        0 <= i < nodes.len(),
        exists|k: int| 0 <= k < nodes[i].children@.len() && #[trigger] nodes[i].children@[k] == (c, j),
    ensures
        i < j < nodes.len(),
        paths[j as int] == paths[i].push(c),
{
    let k = choose|k: int|
        0 <= k < nodes[i].children@.len() && #[trigger] nodes[i].children@[k] == (c, j);
    let e = nodes[i].children@[k];
    assert(i < e.1 < nodes.len());
}

/// Adding a child labelled `c` below node `i`, where `i` has no such edge
/// and no node hangs below the new path, keeps the arena tree-shaped.
proof fn lemma_tree_extend(
    nodes: Seq<Node>,
    paths: Seq<Seq<char>>,
    i: int,
    c: char,
    nodes2: Seq<Node>,
)
    requires
        tree_shaped(nodes, paths),
        0 <= i < nodes.len(),
        forall|k: int| 0 <= k < nodes[i].children@.len() ==> #[trigger] nodes[i].children@[k].0 != c,
        forall|j: int| 0 < j < nodes.len() ==> #[trigger] paths[j].drop_last() != paths[i].push(c),
        nodes2.len() == nodes.len() + 1,
        nodes.len() <= usize::MAX,
        nodes2[i].children@ == nodes[i].children@.push((c, nodes.len() as usize)),
        forall|k: int| 0 <= k < nodes.len() && k != i ==> #[trigger] nodes2[k].children@ == nodes[k].children@,
        nodes2[nodes.len() as int].children@.len() == 0,
    ensures
        tree_shaped(nodes2, paths.push(paths[i].push(c))),
{
    let n = nodes.len() as int;
    let p = paths[i].push(c);
    let paths2 = paths.push(p);
    lemma_no_node_past_missing_edge(nodes, paths, i, c);
    assert forall|a: int, k: int|
        0 <= a < nodes2.len() && 0 <= k < nodes2[a].children@.len() implies a
        < (#[trigger] nodes2[a].children@[k]).1 < nodes2.len() && paths2[nodes2[a].children@[k].1 as int]
        == paths2[a].push(nodes2[a].children@[k].0) by {
        let e2 = nodes2[a].children@[k];
        if a == n {
            assert(nodes2[n].children@.len() == 0);
        } else if a != i || k < nodes[i].children@.len() {
            assert(e2 == nodes[a].children@[k]);
            assert(a < e2.1 < nodes.len() && paths[e2.1 as int] == paths[a].push(e2.0));
            assert(paths2[e2.1 as int] == paths[e2.1 as int]);
            assert(paths2[a] == paths[a]);
        } else {
            assert(e2 == (c, n as usize));
            assert(paths2[i] == paths[i]);
            assert(paths2[n] == p);
        }
    }
    assert forall|a: int, k1: int, k2: int|
        0 <= a < nodes2.len() && 0 <= k1 < nodes2[a].children@.len() && 0 <= k2
            < nodes2[a].children@.len() && k1 != k2 implies #[trigger] nodes2[a].children@[k1].0
        != #[trigger] nodes2[a].children@[k2].0 by {
        assert(nodes2[a].children@[k1] == nodes[a].children@[k1] || k1 == nodes[a].children@.len());
        assert(nodes2[a].children@[k2] == nodes[a].children@[k2] || k2 == nodes[a].children@.len());
    }
    assert forall|a: int, b: int|
        0 <= a < nodes2.len() && 0 <= b < nodes2.len() && a != b implies #[trigger] paths2[a]
        != #[trigger] paths2[b] by {
        if a < n && b < n {
            assert(paths2[a] == paths[a] && paths2[b] == paths[b]);
        } else if a < n {
            assert(paths2[a] == paths[a]);
        } else {
            assert(paths2[b] == paths[b]);
        }
    }
    assert forall|a: int, b: int|
        0 <= a < nodes2.len() && 0 < b < nodes2.len() && #[trigger] paths2[b].drop_last()
            == #[trigger] paths2[a] implies exists|k: int|
        0 <= k < nodes2[a].children@.len() && #[trigger] nodes2[a].children@[k] == (
            paths2[b].last(),
            b as usize,
        ) by {
        if b == n {
            assert(p.drop_last() =~= paths[i]);
            if a != i {
                assert(paths2[a] == paths[a]);
            }
            assert(a == i);
            assert(nodes2[i].children@[nodes[i].children@.len() as int] == (c, n as usize));
        } else {
            assert(paths2[b] == paths[b]);
            if a == n {
                assert(false);
            }
            assert(paths2[a] == paths[a]);
            let k = choose|k: int|
                0 <= k < nodes[a].children@.len() && #[trigger] nodes[a].children@[k] == (
                    paths[b].last(),
                    b as usize,
                );
            assert(nodes2[a].children@[k] == nodes[a].children@[k]);
        }
    }
}

/// Whether the nodes are tree-shaped depends on their edges alone.
proof fn lemma_tree_same_edges(nodes: Seq<Node>, paths: Seq<Seq<char>>, nodes2: Seq<Node>)
    requires
        tree_shaped(nodes, paths),
        nodes2.len() == nodes.len(),
        forall|k: int| 0 <= k < nodes.len() ==> #[trigger] nodes2[k].children@ == nodes[k].children@,
    ensures
        tree_shaped(nodes2, paths),
{
    assert forall|i: int, k: int| 0 <= i < nodes2.len() && 0 <= k < nodes2[i].children@.len() implies i
        < (#[trigger] nodes2[i].children@[k]).1 < nodes2.len() && paths[nodes2[i].children@[k].1 as int]
        == paths[i].push(nodes2[i].children@[k].0) by {
        assert(nodes2[i].children@[k] == nodes[i].children@[k]);
    }
    assert forall|i: int, k1: int, k2: int|
        0 <= i < nodes2.len() && 0 <= k1 < nodes2[i].children@.len() && 0 <= k2
            < nodes2[i].children@.len() && k1 != k2 implies #[trigger] nodes2[i].children@[k1].0
        != #[trigger] nodes2[i].children@[k2].0 by {
        assert(nodes2[i].children@[k1] == nodes[i].children@[k1]);
        assert(nodes2[i].children@[k2] == nodes[i].children@[k2]);
    }
    assert forall|i: int, j: int|
        0 <= i < nodes2.len() && 0 < j < nodes2.len() && #[trigger] paths[j].drop_last()
            == #[trigger] paths[i] implies exists|k: int|
        0 <= k < nodes2[i].children@.len() && #[trigger] nodes2[i].children@[k] == (
            paths[j].last(),
            j as usize,
        ) by {
        let k = choose|k: int|
            0 <= k < nodes[i].children@.len() && #[trigger] nodes[i].children@[k] == (
                paths[j].last(),
                j as usize,
            );
        assert(nodes2[i].children@[k] == nodes[i].children@[k]);
    }
}

/// Where node `i` has no edge labelled `c`, no node spells the path of `i`
/// followed by `c`.
proof fn lemma_no_node_past_missing_edge(
    nodes: Seq<Node>,
    paths: Seq<Seq<char>>,
    i: int,
    c: char,
)
    requires
        tree_shaped(nodes, paths),
        0 <= i < nodes.len(),
        forall|k: int| 0 <= k < nodes[i].children@.len() ==> #[trigger] nodes[i].children@[k].0 != c,
    ensures
        forall|j: int| 0 <= j < nodes.len() ==> #[trigger] paths[j] != paths[i].push(c),
{
    assert forall|j: int| 0 <= j < nodes.len() implies #[trigger] paths[j] != paths[i].push(c) by {
        if paths[j] == paths[i].push(c) {
            assert(paths[j].drop_last() =~= paths[i]);
            assert(j != 0);
            let k = choose|k: int|
                0 <= k < nodes[i].children@.len() && #[trigger] nodes[i].children@[k] == (
                    paths[j].last(),
                    j as usize,
                );
            assert(nodes[i].children@[k].0 == c);
        }
    }
}

/// One node of the tree: whether a word ends here, and the edges to its
/// children, each a character and the index of the child in the tree.
pub struct Node {
    pub end: bool,
    pub children: Vec<(char, usize)>,
}

impl Node {
    /// A fresh node: not terminal, with no children.
    pub fn new() -> (r: Node)
        ensures
            !r.end,
            r.children@.len() == 0,
    {
        Node { children: Vec::new(), end: false }
    }

    /// The child reached by the edge labelled `c`, if there is one.
    pub fn child(&self, c: char) -> (r: Option<usize>)
        ensures
            r matches Some(j) ==> exists|k: int|
                0 <= k < self.children@.len() && #[trigger] self.children@[k] == (c, j),
            r is None ==> forall|k: int|
                0 <= k < self.children@.len() ==> #[trigger] self.children@[k].0 != c,
    {
        let mut k: usize = 0;
        while k < self.children.len()
            invariant
                k <= self.children@.len(),
                forall|m: int| 0 <= m < k ==> #[trigger] self.children@[m].0 != c,
            decreases self.children@.len() - k,
        {
            if self.children[k].0 == c {
                assert(self.children@[k as int] == (c, self.children@[k as int].1));
                return Some(self.children[k].1);
            }
            k = k + 1;
        }
        None
    }
}


/// A prefix tree, stored as an arena of nodes. Node 0 is the root; every
/// edge leads from a node to one with a larger index.
pub struct Trie {
    nodes: Vec<Node>,
    /// The characters on the way from the root to each node.
    paths: Ghost<Seq<Seq<char>>>,
    /// The words inserted so far.
    words: Ghost<Set<Seq<char>>>,
}

/// The shape of the arena: the edges of each node, and whether a word ends there.
pub open spec fn node_shape(n: Node) -> (bool, Seq<(char, usize)>) {
    (n.end, n.children@)
}

/// The arena is a tree whose node `i` spells `paths[i]`: each edge extends
/// the path of its source by its character, the edges out of a node carry
/// distinct characters, no two nodes spell the same path, and every node
/// that extends another by one character is reached from it by an edge.
pub open spec fn tree_shaped(nodes: Seq<Node>, paths: Seq<Seq<char>>) -> bool {
    &&& nodes.len() == paths.len()
    &&& nodes.len() >= 1
    &&& paths[0] == Seq::<char>::empty()
    &&& forall|i: int, k: int|
        0 <= i < nodes.len() && 0 <= k < nodes[i].children@.len() ==> {
            let e = #[trigger] nodes[i].children@[k];
            i < e.1 < nodes.len() && paths[e.1 as int] == paths[i].push(e.0)
        }
    &&& forall|i: int, k1: int, k2: int|
        0 <= i < nodes.len() && 0 <= k1 < nodes[i].children@.len() && 0 <= k2
            < nodes[i].children@.len() && k1 != k2 ==> #[trigger] nodes[i].children@[k1].0
            != #[trigger] nodes[i].children@[k2].0
    &&& forall|i: int, j: int|
        0 <= i < nodes.len() && 0 <= j < nodes.len() && i != j ==> #[trigger] paths[i]
            != #[trigger] paths[j]
    &&& forall|i: int, j: int|
        0 <= i < nodes.len() && 0 < j < nodes.len() && #[trigger] paths[j].drop_last()
            == #[trigger] paths[i] ==> exists|k: int|
            0 <= k < nodes[i].children@.len() && #[trigger] nodes[i].children@[k] == (
                paths[j].last(),
                j as usize,
            )
}

/// The paths of the nodes are exactly the paths of the prefix tree of `words`.
pub open spec fn covers(paths: Seq<Seq<char>>, words: Set<Seq<char>>) -> bool {
    &&& forall|i: int| 0 <= i < paths.len() ==> is_path(words, #[trigger] paths[i])
    &&& forall|p: Seq<char>| #[trigger] is_path(words, p) ==> exists|i: int|
        0 <= i < paths.len() && #[trigger] paths[i] == p
}

/// A node is terminal exactly when its path is one of `words`.
pub open spec fn marks(nodes: Seq<Node>, paths: Seq<Seq<char>>, words: Set<Seq<char>>) -> bool {
    forall|i: int| 0 <= i < nodes.len() ==> (#[trigger] nodes[i]).end == words.contains(paths[i])
}

impl Trie {
    /// The words inserted so far.
    pub closed spec fn view(&self) -> Set<Seq<char>> {
        self.words@
    }

    /// Number of nodes, the root included.
    pub closed spec fn size(&self) -> nat {
        self.nodes@.len()
    }

    /// The characters on the way from the root to node `i`.
    pub closed spec fn path(&self, i: int) -> Seq<char> {
        self.paths@[i]
    }

    /// Whether a word ends at node `i`.
    pub closed spec fn terminal(&self, i: int) -> bool {
        self.nodes@[i].end
    }

    /// The nodes of the arena, each as its terminal flag and its edges.
    pub closed spec fn shape(&self) -> Seq<(bool, Seq<(char, usize)>)> {
        self.nodes@.map_values(|n: Node| node_shape(n))
    }

    /// `after` is this tree with `w` inserted: the words gain `w`, the
    /// existing nodes keep their paths, one node is added for each character
    /// of `w` past the point where a descent along `w` stops, and a word
    /// already present leaves the arena as it was.
    pub open spec fn inserted(self, w: Seq<char>, after: Trie) -> bool {
        &&& after.wf()
        &&& after@ == self@.insert(w)
        &&& after.size() == self.size() + w.len() - reach(self@, w).len()
        &&& forall|i: int| 0 <= i < self.size() ==> #[trigger] after.path(i) == self.path(i)
        &&& self@.contains(w) ==> after.shape() == self.shape()
    }

    /// The edges out of node `i`.
    pub closed spec fn edges(&self, i: int) -> Seq<(char, usize)> {
        self.nodes@[i].children@
    }

    /// The arena is the prefix tree of the inserted words.
    pub closed spec fn wf(&self) -> bool {
        &&& tree_shaped(self.nodes@, self.paths@)
        &&& covers(self.paths@, self.words@)
        &&& marks(self.nodes@, self.paths@, self.words@)
    }

    /// The edge labelled `c` out of node `i` leads to a node spelling the
    /// path of `i` followed by `c`.
    proof fn lemma_child_path(&self, i: int, c: char, j: usize)
        requires
            self.wf(),
            0 <= i < self.size(),
            exists|k: int|
                0 <= k < self.nodes@[i].children@.len() && #[trigger] self.nodes@[i].children@[k]
                    == (c, j),
        ensures
            i < j < self.size(),
            self.path(j as int) == self.path(i).push(c),
            is_path(self@, self.path(j as int)),
    {
        let k = choose|k: int|
            0 <= k < self.nodes@[i].children@.len() && #[trigger] self.nodes@[i].children@[k] == (
                c,
                j,
            );
        let e = self.nodes@[i].children@[k];
        assert(i < e.1 < self.nodes@.len());
    }

    /// Where node `i` has no edge labelled `c`, no inserted word extends the
    /// path of `i` by `c`.
    proof fn lemma_missing_child(&self, i: int, c: char)
        requires
            self.wf(),
            0 <= i < self.size(),
            forall|k: int|
                0 <= k < self.nodes@[i].children@.len() ==> #[trigger] self.nodes@[i].children@[k].0
                    != c,
        ensures
            !is_path(self@, self.path(i).push(c)),
    {
        let p = self.path(i).push(c);
        if is_path(self@, p) {
            let j = choose|j: int| 0 <= j < self.paths@.len() && #[trigger] self.paths@[j] == p;
            assert(self.paths@[j].drop_last() =~= self.paths@[i]);
            assert(j != 0);
            let k = choose|k: int|
                0 <= k < self.nodes@[i].children@.len() && #[trigger] self.nodes@[i].children@[k]
                    == (self.paths@[j].last(), j as usize);
            assert(self.nodes@[i].children@[k].0 == c);
        }
    }

    /// The path of every node is a path of the tree.
    proof fn lemma_node_is_path(&self, i: int)
        requires
            self.wf(),
            0 <= i < self.size(),
        ensures
            is_path(self@, self.path(i)),
    {
    }

    /// The edge at `k` out of node `i` leads to a later node whose path is
    /// that of `i` followed by the edge's character.
    pub proof fn lemma_edge_target(&self, i: int, k: int)
        requires
            self.wf(),
            0 <= i < self.size(),
            0 <= k < self.edges(i).len(),
        ensures
            i < self.edges(i)[k].1 < self.size(),
            self.path(self.edges(i)[k].1 as int) == self.path(i).push(self.edges(i)[k].0),
    {
        let e = self.nodes@[i].children@[k];
        assert(i < e.1 < self.nodes@.len());
    }

    /// The edges out of a node carry distinct characters.
    pub proof fn lemma_edge_labels_distinct(&self, i: int, k1: int, k2: int)
        requires
            self.wf(),
            0 <= i < self.size(),
            0 <= k1 < self.edges(i).len(),
            0 <= k2 < self.edges(i).len(),
            k1 != k2,
        ensures
            self.edges(i)[k1].0 != self.edges(i)[k2].0,
    {
        assert(self.nodes@[i].children@[k1].0 != self.nodes@[i].children@[k2].0);
    }

    /// A node is terminal exactly when its path is an inserted word.
    pub proof fn lemma_terminal_is_word(&self, i: int)
        requires
            self.wf(),
            0 <= i < self.size(),
        ensures
            self.terminal(i) == self@.contains(self.path(i)),
    {
        assert(self.nodes@[i].end == self.words@.contains(self.paths@[i]));
    }

    /// A word that runs past node `i` leaves it by an edge labelled with its
    /// next character.
    pub proof fn lemma_word_continues(&self, i: int, s: Seq<char>)
        requires
            self.wf(),
            0 <= i < self.size(),
            s.len() > 0,
            self@.contains(self.path(i) + s),
        ensures
            exists|k: int| 0 <= k < self.edges(i).len() && #[trigger] self.edges(i)[k].0 == s[0],
    {
        let p = self.path(i).push(s[0]);
        assert(p =~= (self.path(i) + s).subrange(0, p.len() as int));
        assert(is_path(self@, p));
        let j = choose|j: int| 0 <= j < self.paths@.len() && #[trigger] self.paths@[j] == p;
        assert(self.paths@[j].drop_last() =~= self.paths@[i]);
        assert(j != 0);
        let k = choose|k: int|
            0 <= k < self.nodes@[i].children@.len() && #[trigger] self.nodes@[i].children@[k] == (
                self.paths@[j].last(),
                j as usize,
            );
        assert(self.edges(i)[k].0 == s[0]);
    }

    /// Number of nodes, the root included.
    pub fn node_count(&self) -> (r: usize)
        ensures
            r == self.size(),
    {
        self.nodes.len()
    }

    /// Whether a word ends at node `i`.
    pub fn is_end(&self, i: usize) -> (r: bool)
        requires
            i < self.size(),
        ensures
            r == self.terminal(i as int),
    {
        self.nodes[i].end
    }

    /// The edges out of node `i`.
    pub fn children(&self, i: usize) -> (r: &Vec<(char, usize)>)
        requires
            i < self.size(),
        ensures
            r@ == self.edges(i as int),
    {
        &self.nodes[i].children
    }

    /// An empty tree: the root alone.
    pub fn new() -> (r: Trie)
        ensures
            r.wf(),
            r@ == Set::<Seq<char>>::empty(),
            r.size() == 1,
            r.path(0) == Seq::<char>::empty(),
    {
        let mut nodes: Vec<Node> = Vec::new();
        nodes.push(Node::new());
        let ghost paths = seq![Seq::<char>::empty()];
        let ghost words = Set::<Seq<char>>::empty();
        let r = Trie { nodes, paths: Ghost(paths), words: Ghost(words) };
        assert forall|p: Seq<char>| #[trigger] is_path(r.words@, p) implies exists|i: int|
            0 <= i < r.paths@.len() && #[trigger] r.paths@[i] == p by {
            assert(r.paths@[0] == p);
        }
        r
    }
}

/// Walks from the root along `prefix`, stopping at the first character that
/// has no edge, and returns the node reached: the deepest node whose path is
/// a prefix of `prefix`.
pub fn find_prefix(root: &Trie, prefix: &str) -> (r: usize)
    requires
        root.wf(),
    ensures
        r < root.size(),
        root.path(r as int) == reach(root@, prefix@),
        root.terminal(r as int) == root@.contains(reach(root@, prefix@)),
{
    broadcast use vstd::string::axiom_spec_iter;

    let mut node: usize = 0;
    let mut stopped = false;
    for ch in it: prefix.chars()
        invariant
            root.wf(),
            it.seq() == prefix@,
            node < root.size(),
            root.path(node as int) == reach(root@, prefix@.take(it.index())),
            !stopped ==> root.path(node as int) == prefix@.take(it.index()),
            stopped ==> reach(root@, prefix@.take(it.index())) != prefix@.take(it.index()),
    {
        let ghost i = it.index();
        let ghost before = prefix@.take(i);
        let ghost after = prefix@.take(i + 1);
        assert(after.drop_last() =~= before);
        assert(ch == prefix@[i]);
        assert(after =~= before.push(ch));
        proof {
            lemma_reach_is_prefix(root@, before);
        }
        if !stopped {
            match root.nodes[node].child(ch) {
                Some(j) => {
                    proof {
                        root.lemma_child_path(node as int, ch, j);
                    }
                    node = j;
                },
                None => {
                    proof {
                        root.lemma_missing_child(node as int, ch);
                    }
                    stopped = true;
                },
            }
        }
    }
    assert(prefix@.take(prefix@.len() as int) =~= prefix@);
    node
}

/// Whether `text` spells a path of the tree from the root: the empty text,
/// or a prefix of an inserted word.
pub fn check(root: &Trie, text: &str) -> (r: bool)
    requires
        root.wf(),
    ensures
        r == is_path(root@, text@),
{
    broadcast use vstd::string::axiom_spec_iter;

    let mut node: usize = 0;
    for ch in it: text.chars()
        invariant
            root.wf(),
            it.seq() == text@,
            node < root.size(),
            root.path(node as int) == text@.take(it.index()),
    {
        let ghost i = it.index();
        let ghost before = text@.take(i);
        assert(ch == text@[i]);
        assert(text@.take(i + 1) =~= before.push(ch));
        match root.nodes[node].child(ch) {
            Some(j) => {
                proof {
                    root.lemma_child_path(node as int, ch, j);
                }
                node = j;
            },
            None => {
                proof {
                    root.lemma_missing_child(node as int, ch);
                    if is_path(root@, text@) {
                        lemma_path_prefix_closed(root@, text@, before.push(ch));
                    }
                }
                return false;
            },
        }
    }
    assert(text@.take(text@.len() as int) =~= text@);
    proof {
        root.lemma_node_is_path(node as int);
    }
    true
}

/// Inserts `text`: walks from the root along its characters, creating each
/// missing child as a fresh node, and marks the node reached as terminal.
pub fn insert_text(root: &mut Trie, text: &str)
    requires
        old(root).wf(),
    ensures
        old(root).inserted(text@, *final(root)),
{
    broadcast use vstd::string::axiom_spec_iter;

    let ghost w = text@;
    let ghost words0 = root.words@;
    let ghost nodes0 = root.nodes@;
    let ghost paths0 = root.paths@;
    let mut node: usize = 0;
    proof {
        lemma_is_path_insert(words0, w.take(0));
        assert forall|p: Seq<char>| #[trigger] is_path(words0.insert(w.take(0)), p) implies exists|i: int|
            0 <= i < paths0.len() && #[trigger] paths0[i] == p by {
            if p.is_prefix_of(w.take(0)) {
                assert(p =~= paths0[0]);
            }
        }
        assert(reach(words0, w.take(0)) == w.take(0));
    }
    for ch in it: text.chars()
        invariant
            it.seq() == w,
            w == text@,
            tree_shaped(root.nodes@, root.paths@),
            covers(root.paths@, words0.insert(w.take(it.index()))),
            marks(root.nodes@, root.paths@, words0),
            root.words@ == words0,
            node < root.nodes@.len(),
            root.paths@[node as int] == w.take(it.index()),
            root.nodes@.len() >= nodes0.len(),
            forall|k: int| 0 <= k < nodes0.len() ==> #[trigger] root.paths@[k] == paths0[k],
            root.nodes@.len() == nodes0.len() + it.index() - reach(words0, w.take(it.index())).len(),
            reach(words0, w.take(it.index())) == w.take(it.index()) ==> root.nodes@ == nodes0,
            reach(words0, w.take(it.index())) != w.take(it.index()) ==> root.nodes@[node as int].children@.len() == 0,
    {
        let ghost i = it.index();
        let ghost before = w.take(i);
        let ghost after = w.take(i + 1);
        assert(ch == w[i]);
        assert(after.drop_last() =~= before);
        assert(after =~= before.push(ch));
        proof {
            lemma_reach_is_prefix(words0, before);
        }
        match root.nodes[node].child(ch) {
            Some(j) => {
                proof {
                    lemma_edge(root.nodes@, root.paths@, node as int, ch, j);
                    lemma_covers_step(root.paths@, words0, before, after, false);
                    lemma_is_path_insert(words0, before);
                    if reach(words0, before) == before {
                        assert(is_path(words0.insert(before), after));
                        assert(!after.is_prefix_of(before));
                        assert(is_path(words0, after));
                    }
                }
                node = j;
            },
            None => {
                proof {
                    lemma_no_node_past_missing_edge(root.nodes@, root.paths@, node as int, ch);
                    lemma_covers_step(root.paths@, words0, before, after, true);
                    lemma_is_path_insert(words0, before);
                    assert forall|j: int| 0 < j < root.nodes@.len() implies #[trigger] root.paths@[j].drop_last() != after by {
                        if root.paths@[j].drop_last() == after {
                            assert(root.paths@[j] != root.paths@[0]);
                            if root.paths@[j].len() == 0 {
                                assert(root.paths@[j] =~= root.paths@[0]);
                            }
                            assert(after =~= root.paths@[j].subrange(0, after.len() as int));
                            assert(after.is_prefix_of(root.paths@[j]));
                            assert(is_path(words0.insert(before), root.paths@[j]));
                            lemma_path_prefix_closed(words0.insert(before), root.paths@[j], after);
                        }
                    }
                    if is_path(words0, after) {
                        assert(is_path(words0.insert(before), after));
                    }
                    if words0.contains(after) {
                        assert(after.is_prefix_of(after));
                    }
                }
                let ghost nodes1 = root.nodes@;
                let ghost paths1 = root.paths@;
                let j = root.nodes.len();
                root.nodes[node].children.push((ch, j));
                root.nodes.push(Node::new());
                let ghost np = root.paths@.push(after);
                root.paths = Ghost(np);
                proof {
                    lemma_tree_extend(nodes1, paths1, node as int, ch, root.nodes@);
                    assert forall|k: int| 0 <= k < root.nodes@.len() implies (#[trigger] root.nodes@[k]).end == words0.contains(root.paths@[k]) by {
                        if k < nodes1.len() {
                            assert(root.nodes@[k].end == nodes1[k].end);
                            assert(root.paths@[k] == paths1[k]);
                        }
                    }
                }
                node = j;
            },
        }
    }
    assert(w.take(w.len() as int) =~= w);
    let ghost nodes1 = root.nodes@;
    root.nodes[node].end = true;
    let ghost nw = words0.insert(w);
    root.words = Ghost(nw);
    proof {
        assert forall|k: int| 0 <= k < root.nodes@.len() implies #[trigger] root.nodes@[k].children@
            == nodes1[k].children@ by {
            if k != node {
                assert(root.nodes@[k] == nodes1[k]);
            }
        }
        lemma_tree_same_edges(nodes1, root.paths@, root.nodes@);
        assert forall|k: int| 0 <= k < root.nodes@.len() implies (#[trigger] root.nodes@[k]).end
            == nw.contains(root.paths@[k]) by {
            if k != node {
                assert(root.nodes@[k] == nodes1[k]);
                assert(root.paths@[k] != root.paths@[node as int]);
            }
        }
        if words0.contains(w) {
            assert(w.is_prefix_of(w));
            lemma_reach_path(words0, w);
            assert(nw =~= words0);
            assert(root.shape() =~= old(root).shape());
        }
    }
}

/// Every inserted word is found: a descent along it follows it to its end,
/// and the node reached is terminal.
pub proof fn lemma_inserted_word_found(root: &Trie, w: Seq<char>)
    requires
        root.wf(),
        root@.contains(w),
    ensures
        reach(root@, w) == w,
        root@.contains(reach(root@, w)),
{
    assert(w.is_prefix_of(w));
    lemma_reach_path(root@, w);
}

/// A word never inserted is not found: a descent along it stops short of
/// its end, or ends at a node that is not terminal.
pub proof fn lemma_absent_word_not_found(root: &Trie, w: Seq<char>)
    requires
        root.wf(),
        !root@.contains(w),
    ensures
        reach(root@, w) != w || !root@.contains(reach(root@, w)),
{
}

/// Inserting a word a second time leaves the tree as the first insertion
/// made it: the same nodes, edges and terminal flags.
pub proof fn lemma_insert_idempotent(a: Trie, w: Seq<char>, b: Trie, c: Trie)
    requires
        a.wf(),
        a.inserted(w, b),
        b.inserted(w, c),
    ensures
        c.shape() == b.shape(),
        c@ == b@,
{
    assert(b@.contains(w));
    assert(c@ =~= b@);
}

} // verus!
