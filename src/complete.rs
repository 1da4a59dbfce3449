use crate::text::joined;
use crate::trie::{check, find_prefix, is_path, lemma_reach_path, reach, Trie};
use vstd::prelude::*;

verus! {

/// The tails that complete node `i` into an inserted word.
pub open spec fn suffixes(t: Trie, i: int) -> Set<Seq<char>> {
    Set::new(|s: Seq<char>| t@.contains(t.path(i) + s))
}

/// The inserted words that start with `p`.
pub open spec fn completions(words: Set<Seq<char>>, p: Seq<char>) -> Set<Seq<char>> {
    words.filter(|w: Seq<char>| p.is_prefix_of(w))
}

/// The texts of `out` are the members of `texts`, each once.
pub open spec fn lists_exactly(out: Seq<String>, texts: Set<Seq<char>>) -> bool {
    let v = out.map_values(|x: String| x@);
    &&& v.no_duplicates()
    &&& v.to_set() == texts
}

/// The texts of `out` are, each once, `label` followed by each tail in `tails`.
pub open spec fn lists_once(out: Seq<String>, label: Seq<char>, tails: Set<Seq<char>>) -> bool {
    lists_exactly(out, tails.map(|s: Seq<char>| label + s))
}

/// `out` lists `head` followed by the tails in `ts`, which are exactly the
/// members of `tails`, each once.
pub open spec fn lists_with(
    out: Seq<String>,
    head: Seq<char>,
    tails: Set<Seq<char>>,
    ts: Seq<Seq<char>>,
) -> bool {
    &&& ts.len() == out.len()
    &&& forall|m: int| #![trigger ts[m]]
        0 <= m < ts.len() ==> tails.contains(ts[m]) && out[m]@ == head + ts[m]
    &&& forall|s: Seq<char>| #[trigger] tails.contains(s) ==> exists|m: int|
        0 <= m < ts.len() && #[trigger] ts[m] == s
    &&& forall|m1: int, m2: int|
        0 <= m1 < ts.len() && 0 <= m2 < ts.len() && m1 != m2 ==> #[trigger] ts[m1]
            != #[trigger] ts[m2]
}

/// The tails in `tails` that are empty or start with one of `labels`.
pub open spec fn led_by(tails: Set<Seq<char>>, labels: Seq<char>) -> Set<Seq<char>> {
    tails.filter(|s: Seq<char>| s.len() == 0 || labels.contains(s[0]))
}

/// A listing given by its tails lists each member once.
proof fn lemma_lists_once(out: Seq<String>, head: Seq<char>, tails: Set<Seq<char>>, ts: Seq<Seq<char>>)
    requires
        lists_with(out, head, tails, ts),
    ensures
        lists_once(out, head, tails),
{
    let texts = out.map_values(|x: String| x@);
    let want = tails.map(|s: Seq<char>| head + s);
    assert forall|m1: int, m2: int|
        0 <= m1 < texts.len() && 0 <= m2 < texts.len() && m1 != m2 implies texts[m1] != texts[m2] by {
        assert(ts[m1] != ts[m2]);
        assert(out[m1]@ == head + ts[m1]);
        assert(out[m2]@ == head + ts[m2]);
        if texts[m1] == texts[m2] {
            assert(ts[m1] =~= texts[m1].skip(head.len() as int));
            assert(ts[m2] =~= texts[m2].skip(head.len() as int));
        }
    }
    assert forall|x: Seq<char>| texts.to_set().contains(x) <==> want.contains(x) by {
        if texts.to_set().contains(x) {
            let m = choose|m: int| 0 <= m < texts.len() && texts[m] == x;
            assert(out[m]@ == head + ts[m]);
            assert(tails.contains(ts[m]));
            assert(want.contains(head + ts[m]));
        }
        if want.contains(x) {
            let s = choose|s: Seq<char>| tails.contains(s) && head + s == x;
            let m = choose|m: int| 0 <= m < ts.len() && #[trigger] ts[m] == s;
            assert(out[m]@ == head + ts[m]);
            assert(texts[m] == x);
            assert(texts.contains(x));
        }
    }
    assert(texts.to_set() =~= want);
}

/// Appending the listing of the tails below an edge labelled `c` extends a
/// listing of the tails led by `labels` to those led by `labels` and `c`.
proof fn lemma_walk_step(
    out_mid: Seq<String>,
    out: Seq<String>,
    head: Seq<char>,
    tails: Set<Seq<char>>,
    labels: Seq<char>,
    ts: Seq<Seq<char>>,
    c: char,
    sub: Set<Seq<char>>,
    ts_sub: Seq<Seq<char>>,
)
    requires
        lists_with(out_mid, head, led_by(tails, labels), ts),
        out.len() >= out_mid.len(),
        out.take(out_mid.len() as int) == out_mid,
        lists_with(out.skip(out_mid.len() as int), head.push(c), sub, ts_sub),
        !labels.contains(c),
        forall|s1: Seq<char>| #[trigger] sub.contains(s1) == tails.contains(seq![c] + s1),
    ensures
        lists_with(
            out,
            head,
            led_by(tails, labels.push(c)),
            ts + ts_sub.map_values(|s1: Seq<char>| seq![c] + s1),
        ),
{
    let mid = out_mid.len() as int;
    let added = out.skip(mid);
    let hc = head.push(c);
    let labels2 = labels.push(c);
    let old_led = led_by(tails, labels);
    let new_led = led_by(tails, labels2);
    let ext = ts_sub.map_values(|s1: Seq<char>| seq![c] + s1);
    let ts2 = ts + ext;
    assert forall|x: char| labels.contains(x) implies labels2.contains(x) by {
        let q = choose|q: int| 0 <= q < labels.len() && labels[q] == x;
        assert(labels2[q] == x);
    }
    assert(labels2[labels.len() as int] == c);
    assert forall|m: int| #![trigger ts2[m]] 0 <= m < ts2.len() implies new_led.contains(ts2[m])
        && out[m]@ == head + ts2[m] by {
        if m < mid {
            assert(ts2[m] == ts[m]);
            assert(out.take(mid)[m] == out[m]);
            assert(old_led.contains(ts[m]));
        } else {
            let r = m - mid;
            assert(ts2[m] == ext[r]);
            assert(added[r] == out[m]);
            assert(sub.contains(ts_sub[r]));
            assert(ext[r] == seq![c] + ts_sub[r]);
            assert(hc + ts_sub[r] =~= head + ext[r]);
            assert(ext[r][0] == c);
        }
    }
    assert forall|s: Seq<char>| #[trigger] new_led.contains(s) implies exists|m: int|
        0 <= m < ts2.len() && #[trigger] ts2[m] == s by {
        if s.len() > 0 && s[0] == c {
            let s1 = s.drop_first();
            assert(seq![c] + s1 =~= s);
            assert(sub.contains(s1));
            let r = choose|r: int| 0 <= r < ts_sub.len() && #[trigger] ts_sub[r] == s1;
            assert(ts2[mid + r] == ext[r]);
        } else {
            if s.len() > 0 {
                let q = choose|q: int| 0 <= q < labels2.len() && labels2[q] == s[0];
                assert(q < labels.len());
                assert(labels[q] == s[0]);
            }
            assert(old_led.contains(s));
            let m = choose|m: int| 0 <= m < ts.len() && #[trigger] ts[m] == s;
            assert(ts2[m] == ts[m]);
        }
    }
    assert forall|m1: int, m2: int|
        0 <= m1 < ts2.len() && 0 <= m2 < ts2.len() && m1 != m2 implies #[trigger] ts2[m1]
        != #[trigger] ts2[m2] by {
        if m1 < mid && m2 < mid {
            assert(ts2[m1] == ts[m1] && ts2[m2] == ts[m2]);
        } else if m1 >= mid && m2 >= mid {
            assert(ts2[m1] == ext[m1 - mid] && ts2[m2] == ext[m2 - mid]);
            assert(ts_sub[m1 - mid] != ts_sub[m2 - mid]);
            if ext[m1 - mid] == ext[m2 - mid] {
                assert(ts_sub[m1 - mid] =~= ext[m1 - mid].drop_first());
                assert(ts_sub[m2 - mid] =~= ext[m2 - mid].drop_first());
            }
        } else {
            let (a, b) = if m1 < mid {
                (m1, m2)
            } else {
                (m2, m1)
            };
            assert(ts2[a] == ts[a]);
            assert(old_led.contains(ts[a]));
            assert(ts2[b] == ext[b - mid]);
            assert(ext[b - mid][0] == c);
        }
    }
    assert forall|m: int| #![trigger out[m]] 0 <= m < out.len() implies true by {}
}

/// The tails below the edge at `k` out of node `i` are those of `i` that
/// start with its label.
proof fn lemma_edge_tails(t: Trie, i: int, k: int)
    requires
        t.wf(),
        0 <= i < t.size(),
        0 <= k < t.edges(i).len(),
    ensures
        forall|s1: Seq<char>| #[trigger]
            suffixes(t, t.edges(i)[k].1 as int).contains(s1) == suffixes(t, i).contains(
                seq![t.edges(i)[k].0] + s1,
            ),
{
    t.lemma_edge_target(i, k);
    let e = t.edges(i)[k];
    assert forall|s1: Seq<char>| #[trigger]
        suffixes(t, e.1 as int).contains(s1) == suffixes(t, i).contains(seq![e.0] + s1) by {
        assert(t.path(e.1 as int) + s1 =~= t.path(i) + (seq![e.0] + s1));
    }
}

/// Depth-first walk of the subtree of node `i`, where `buffer` holds the
/// characters walked since the start: appends to `out`, for each word ending
/// in the subtree, `label` followed by the characters from the start to it.
/// Returns the tails that the new entries add to `label` and `buffer`.
fn collect_from(t: &Trie, i: usize, buffer: &mut Vec<char>, label: &str, out: &mut Vec<String>) -> (ts: Ghost<Seq<Seq<char>>>)
    requires
        t.wf(),
        i < t.size(),
    ensures
        final(buffer)@ == old(buffer)@,
        final(out)@.len() >= old(out)@.len(),
        final(out)@.take(old(out)@.len() as int) == old(out)@,
        lists_with(
            final(out)@.skip(old(out)@.len() as int),
            label@ + old(buffer)@,
            suffixes(*t, i as int),
            ts@,
        ),
    decreases t.size() - i,
{
    let ghost out0 = out@;
    let ghost from = out0.len() as int;
    let ghost head = label@ + buffer@;
    let ghost tails = suffixes(*t, i as int);
    let ghost mut ts = Seq::<Seq<char>>::empty();
    proof {
        t.lemma_terminal_is_word(i as int);
        assert(t.path(i as int) + Seq::<char>::empty() =~= t.path(i as int));
    }
    if t.is_end(i) {
        let s = joined(label, buffer);
        assert(s@ == head + Seq::<char>::empty());
        out.push(s);
        proof {
            ts = seq![Seq::<char>::empty()];
        }
    }
    proof {
        let led = led_by(tails, Seq::<char>::empty());
        assert forall|s: Seq<char>| #[trigger] led.contains(s) implies exists|m: int|
            0 <= m < ts.len() && #[trigger] ts[m] == s by {
            assert(s =~= Seq::<char>::empty());
            assert(ts[0] == s);
        }
        assert(out@.take(from) =~= out0);
        assert(out@.skip(from).len() == ts.len());
        assert forall|m: int| #![trigger ts[m]] 0 <= m < ts.len() implies led.contains(ts[m])
            && out@.skip(from)[m]@ == head + ts[m] by {
            assert(head + Seq::<char>::empty() =~= head);
            assert(out@.skip(from)[m] == out@[from + m]);
        }
    }
    let edges = t.children(i);
    let mut k: usize = 0;
    let ghost mut labels = Seq::<char>::empty();
    while k < edges.len()
        invariant
            t.wf(),
            i < t.size(),
            edges@ == t.edges(i as int),
            k <= edges@.len(),
            labels.len() == k,
            forall|q: int| 0 <= q < k ==> #[trigger] labels[q] == edges@[q].0,
            buffer@ == old(buffer)@,
            head == label@ + buffer@,
            out@.len() >= out0.len(),
            out@.take(from) == out0,
            from == out0.len(),
            tails == suffixes(*t, i as int),
            lists_with(out@.skip(from), head, led_by(tails, labels), ts),
        decreases edges@.len() - k,
    {
        let (c, j) = edges[k];
        proof {
            t.lemma_edge_target(i as int, k as int);
            lemma_edge_tails(*t, i as int, k as int);
            assert forall|q: int| 0 <= q < labels.len() implies labels[q] != c by {
                t.lemma_edge_labels_distinct(i as int, q, k as int);
            }
        }
        let ghost out_mid = out@;
        buffer.push(c);
        assert(label@ + buffer@ =~= head.push(c));
        let sub_ts = collect_from(t, j, buffer, label, out);
        buffer.pop();
        proof {
            assert(out@.len() >= out_mid.len());
            assert(out@.take(out_mid.len() as int) == out_mid);
            assert(out_mid.len() >= from);
            let rel = out@.skip(from);
            assert(rel.take(out_mid.skip(from).len() as int) =~= out_mid.skip(from));
            assert(rel.skip(out_mid.skip(from).len() as int) =~= out@.skip(out_mid.len() as int));
            lemma_walk_step(out_mid.skip(from), rel, head, tails, labels, ts, c, suffixes(*t, j as int), sub_ts@);
            assert(out@.take(from) =~= out@.take(out_mid.len() as int).take(from));
            ts = ts + sub_ts@.map_values(|s1: Seq<char>| seq![c] + s1);
            labels = labels.push(c);
        }
        k = k + 1;
    }
    proof {
        assert forall|s: Seq<char>| #[trigger] tails.contains(s) implies led_by(tails, labels).contains(s) by {
            if s.len() > 0 {
                t.lemma_word_continues(i as int, s);
                let q = choose|q: int| 0 <= q < t.edges(i as int).len() && #[trigger] t.edges(i as int)[q].0 == s[0];
                assert(labels[q] == s[0]);
            }
        }
        assert(led_by(tails, labels) =~= tails);
    }
    Ghost(ts)
}

/// Lists, each once and in no particular order, `prefix` followed by the
/// characters from node `node` down to each word ending in its subtree (a
/// word ending at `node` itself gives `prefix` alone).
pub fn collect_autocompletion(root: &Trie, node: usize, prefix: &str) -> (r: Vec<String>)
    requires
        root.wf(),
        node < root.size(),
    ensures
        lists_once(r@, prefix@, suffixes(*root, node as int)),
{
    let mut buffer: Vec<char> = Vec::new();
    let mut out: Vec<String> = Vec::new();
    let ts = collect_from(root, node, &mut buffer, prefix, &mut out);
    proof {
        assert(out@.skip(0) =~= out@);
        assert(prefix@ + Seq::<char>::empty() =~= prefix@);
        lemma_lists_once(out@, prefix@, suffixes(*root, node as int), ts@);
    }
    out
}

/// The inserted words that start with `prefix`, each once and in no
/// particular order. Where no inserted word starts with `prefix` the list is
/// empty: a descent that stops short of the end of `prefix` yields nothing.
pub fn autocomplete(root: &Trie, prefix: &str) -> (r: Vec<String>)
    requires
        root.wf(),
    ensures
        lists_exactly(r@, completions(root@, prefix@)),
{
    let found = check(root, prefix);
    if !found {
        let r: Vec<String> = Vec::new();
        proof {
            assert forall|w: Seq<char>| #[trigger] completions(root@, prefix@).contains(w) implies false by {
                assert(is_path(root@, prefix@));
            }
            assert(r@.map_values(|x: String| x@).to_set() =~= completions(root@, prefix@));
        }
        return r;
    }
    let node = find_prefix(root, prefix);
    proof {
        lemma_reach_path(root@, prefix@);
    }
    let r = collect_autocompletion(root, node, prefix);
    proof {
        let tails = suffixes(*root, node as int);
        let got = tails.map(|s: Seq<char>| prefix@ + s);
        let want = completions(root@, prefix@);
        assert forall|x: Seq<char>| got.contains(x) <==> want.contains(x) by {
            if got.contains(x) {
                let s = choose|s: Seq<char>| tails.contains(s) && prefix@ + s == x;
                assert(prefix@ =~= x.subrange(0, prefix@.len() as int));
            }
            if want.contains(x) {
                let s = x.skip(prefix@.len() as int);
                assert(prefix@ + s =~= x);
                assert(tails.contains(s));
            }
        }
        assert(got =~= want);
    }
    r
}

/// A walk from the node where a descent along `p` stops yields the inserted
/// words that pass through that node, each with the characters up to it
/// removed.
pub proof fn lemma_descent_completions(root: &Trie, p: Seq<char>, node: int)
    requires
        root.wf(),
        0 <= node < root.size(),
        root.path(node) == reach(root@, p),
    ensures
        suffixes(*root, node) == completions(root@, reach(root@, p)).map(
            |w: Seq<char>| w.skip(reach(root@, p).len() as int),
        ),
{
    let q = reach(root@, p);
    let cut = |w: Seq<char>| w.skip(q.len() as int);
    let rhs = completions(root@, q).map(cut);
    assert forall|s: Seq<char>| suffixes(*root, node).contains(s) <==> rhs.contains(s) by {
        if suffixes(*root, node).contains(s) {
            let w = q + s;
            assert(q =~= w.subrange(0, q.len() as int));
            assert(completions(root@, q).contains(w));
            assert(cut(w) =~= s);
        }
        if rhs.contains(s) {
            let w = choose|w: Seq<char>| completions(root@, q).contains(w) && cut(w) == s;
            assert(q + s =~= w);
        }
    }
    assert(suffixes(*root, node) =~= rhs);
}

/// Where no inserted word starts with the first character of `p`, a descent
/// along `p` stops at the root and no word completes `p`.
pub proof fn lemma_missing_first_char(root: &Trie, p: Seq<char>)
    requires
        root.wf(),
        p.len() > 0,
        forall|w: Seq<char>| #[trigger] root@.contains(w) ==> w.len() == 0 || w[0] != p[0],
    ensures
        reach(root@, p) == Seq::<char>::empty(),
        completions(root@, p) == Set::<Seq<char>>::empty(),
    decreases p.len(),
{
    if is_path(root@, p.take(1)) {
        let w = choose|w: Seq<char>| root@.contains(w) && p.take(1).is_prefix_of(w);
        assert(w[0] == p.take(1)[0]);
    }
    if p.len() > 1 {
        assert(p.drop_last()[0] == p[0]);
        lemma_missing_first_char(root, p.drop_last());
        assert(reach(root@, p.drop_last()) != p.drop_last());
        assert(reach(root@, p) == reach(root@, p.drop_last()));
    } else {
        assert(p.drop_last() =~= Seq::<char>::empty());
        assert(p =~= p.take(1));
        assert(reach(root@, p) == reach(root@, p.drop_last()));
    }
    assert forall|w: Seq<char>| #[trigger] completions(root@, p).contains(w) implies false by {
        assert(w[0] == p[0]);
    }
    assert(completions(root@, p) =~= Set::<Seq<char>>::empty());
}

} // verus!
