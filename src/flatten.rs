use vstd::prelude::*;

use crate::tree::{Node, TreeError, levels_view, levels_wf};

verus! {

/// The number of nodes at depth `d`, or 0 where the collection has no such level.
pub open spec fn level_len(levels: Seq<Seq<Node>>, d: nat) -> int {
    if d < levels.len() {
        levels[d as int].len() as int
    } else {
        0
    }
}

/// The flattened output of the first `k` nodes of level `d` whose parent link
/// is `parent`: each such node, then, where it has children, the flattened
/// nodes of level `d + 1` that link to it.
pub open spec fn flat_prefix(levels: Seq<Seq<Node>>, d: nat, parent: nat, k: int) -> Result<
    Seq<Node>,
    TreeError,
>
    decreases levels.len() - d, k,
{
    if d >= levels.len() {
        Err(TreeError::MissingLevel(d as usize))
    } else if k <= 0 {
        Ok(Seq::empty())
    } else {
        match flat_prefix(levels, d, parent, k - 1) {
            Err(err) => Err(err),
            Ok(done) => {
                let n = levels[d as int][k - 1];
                if n.parent != parent {
                    Ok(done)
                } else if !n.has_children {
                    Ok(done.push(n))
                } else {
                    match flat_prefix(levels, d + 1, n.id as nat, level_len(levels, d + 1)) {
                        Err(err) => Err(err),
                        Ok(below) => Ok(done.push(n) + below),
                    }
                }
            },
        }
    }
}

/// The flattened output of the nodes of level `d` that link to `parent`.
pub open spec fn flat_level(levels: Seq<Seq<Node>>, d: nat, parent: nat) -> Result<
    Seq<Node>,
    TreeError,
> {
    flat_prefix(levels, d, parent, level_len(levels, d))
}

pub open spec fn nodes_view(r: Result<Vec<Node>, TreeError>) -> Result<Seq<Node>, TreeError> {
    match r {
        Ok(v) => Ok(v@),
        Err(err) => Err(err),
    }
}

/// Once a prefix of a level fails, every longer prefix fails the same way.
proof fn lemma_flat_error_sticks(levels: Seq<Seq<Node>>, d: nat, parent: nat, k: int, m: int)
    requires
        0 <= k <= m,
        flat_prefix(levels, d, parent, k) is Err,
    ensures
        flat_prefix(levels, d, parent, m) == flat_prefix(levels, d, parent, k),
    decreases m - k,
{
    if m > k {
        lemma_flat_error_sticks(levels, d, parent, k, m - 1);
    }
}

/// Flattens the sorted collection from level `depth` in pre-order: each node
/// of that level that links to `parent`, in level order, followed by the
/// flattened nodes that link to it one level down. The whole tree is
/// `flat_map(levels, 0, 0)`. Fails where a node with children points at a
/// missing level.
pub fn flat_map(levels: &Vec<Vec<Node>>, depth: usize, parent: usize) -> (r: Result<
    Vec<Node>,
    TreeError,
>)
    ensures
        nodes_view(r) == flat_level(levels_view(levels@), depth as nat, parent as nat),
    decreases levels.len() - depth,
{
    let ghost lv = levels_view(levels@);
    if depth >= levels.len() {
        return Err(TreeError::MissingLevel(depth));
    }
    let level = &levels[depth];
    assert(level@ == lv[depth as int]);
    let mut out: Vec<Node> = Vec::new();
    let mut k: usize = 0;
    while k < level.len()
        invariant
            depth < levels.len(),
            lv == levels_view(levels@),
            level@ == lv[depth as int],
            k <= level.len(),
            flat_prefix(lv, depth as nat, parent as nat, k as int) == Ok::<Seq<Node>, TreeError>(out@),
        decreases level.len() - k,
    {
        let node = &level[k];
        if node.parent == parent {
            out.push(node.duplicate());
            if node.has_children {
                match flat_map(levels, depth + 1, node.id) {
                    Ok(below) => {
                        let mut below = below;
                        out.append(&mut below);
                    },
                    Err(err) => {
                        proof {
                            lemma_flat_error_sticks(lv, depth as nat, parent as nat, k + 1, level_len(lv, depth as nat));
                        }
                        return Err(err);
                    },
                }
            }
        }
        k = k + 1;
    }
    Ok(out)
}


/// The descendants of node `n`, in pre-order: the flattened nodes one level
/// down that link to it, where it has children.
pub open spec fn below(levels: Seq<Seq<Node>>, n: Node) -> Seq<Node> {
    if n.has_children {
        match flat_level(levels, (n.depth + 1) as nat, n.id as nat) {
            Ok(s) => s,
            Err(_) => Seq::empty(),
        }
    } else {
        Seq::empty()
    }
}

/// Each node of `s` is directly followed by exactly its descendants, all of
/// which lie deeper; the node after them is no deeper than it.
pub open spec fn adjacent_blocks(levels: Seq<Seq<Node>>, s: Seq<Node>) -> bool {
    forall|i: int|
        0 <= i < s.len() ==> {
            let c = below(levels, #[trigger] s[i]);
            &&& i + 1 + c.len() <= s.len()
            &&& s.subrange(i + 1, i + 1 + c.len()) == c
            &&& forall|j: int| 0 <= j < c.len() ==> c[j].depth > s[i].depth
            &&& i + 1 + c.len() < s.len() ==> s[i + 1 + c.len()].depth <= s[i].depth
        }
}

/// No node of `s` lies above depth `d`.
pub open spec fn all_at_least(s: Seq<Node>, d: nat) -> bool {
    forall|j: int| 0 <= j < s.len() ==> #[trigger] s[j].depth >= d
}

proof fn lemma_join(levels: Seq<Seq<Node>>, done: Seq<Node>, n: Node, b: Seq<Node>, d: nat)
    requires
        adjacent_blocks(levels, done),
        all_at_least(done, d),
        n.depth == d,
        below(levels, n) == b,
        adjacent_blocks(levels, b),
        all_at_least(b, d + 1),
    ensures
        adjacent_blocks(levels, done.push(n) + b),
        all_at_least(done.push(n) + b, d),
{
    let s = done.push(n) + b;
    let m = done.len() as int;
    assert forall|i: int| 0 <= i < s.len() implies {
        let c = below(levels, #[trigger] s[i]);
        &&& i + 1 + c.len() <= s.len()
        &&& s.subrange(i + 1, i + 1 + c.len()) == c
        &&& forall|j: int| 0 <= j < c.len() ==> c[j].depth > s[i].depth
        &&& i + 1 + c.len() < s.len() ==> s[i + 1 + c.len()].depth <= s[i].depth
    } by {
        if i < m {
            assert(s[i] == done[i]);
            let c = below(levels, done[i]);
            assert(s.subrange(i + 1, i + 1 + c.len()) =~= done.subrange(i + 1, i + 1 + c.len()));
            if i + 1 + c.len() < m {
                assert(s[i + 1 + c.len()] == done[i + 1 + c.len()]);
            } else {
                assert(s[m] == n);
            }
        } else if i == m {
            assert(s[i] == n);
            assert(s.subrange(m + 1, m + 1 + b.len()) =~= b);
            assert forall|j: int| 0 <= j < b.len() implies b[j].depth > s[i].depth by {
                assert(b[j].depth >= d + 1);
            }
        } else {
            let k = i - m - 1;
            assert(s[i] == b[k]);
            let c = below(levels, b[k]);
            assert(s.subrange(i + 1, i + 1 + c.len()) =~= b.subrange(k + 1, k + 1 + c.len()));
            if i + 1 + c.len() < s.len() {
                assert(s[i + 1 + c.len()] == b[k + 1 + c.len()]);
            }
        }
    }
    assert forall|j: int| 0 <= j < s.len() implies #[trigger] s[j].depth >= d by {
        if j < m {
            assert(s[j] == done[j]);
        } else if j > m {
            assert(s[j] == b[j - m - 1]);
        }
    }
}

proof fn lemma_flat_blocks(levels: Seq<Seq<Node>>, d: nat, parent: nat, k: int)
    requires
        levels_wf(levels),
        d < levels.len(),
        0 <= k <= levels[d as int].len(),
        flat_prefix(levels, d, parent, k) is Ok,
    ensures
        adjacent_blocks(levels, flat_prefix(levels, d, parent, k)->Ok_0),
        all_at_least(flat_prefix(levels, d, parent, k)->Ok_0, d),
    decreases levels.len() - d, k,
{
    if k > 0 {
        lemma_flat_blocks(levels, d, parent, k - 1);
        let done = flat_prefix(levels, d, parent, k - 1)->Ok_0;
        let n = levels[d as int][k - 1];
        assert(n.depth == d);
        if n.parent == parent {
            if n.has_children {
                lemma_flat_blocks(levels, d + 1, n.id as nat, level_len(levels, d + 1));
                lemma_join(
                    levels,
                    done,
                    n,
                    flat_prefix(levels, d + 1, n.id as nat, level_len(levels, d + 1))->Ok_0,
                    d,
                );
            } else {
                assert(done.push(n) + Seq::<Node>::empty() =~= done.push(n));
                lemma_join(levels, done, n, Seq::empty(), d);
            }
        }
    }
}

/// In a well-formed level collection, flattening places every node directly
/// before exactly its descendants (the nodes that link to it, each with its
/// own descendants), all of which lie deeper than the node; the node that
/// follows them is no deeper than the node itself, so no node of another
/// subtree falls between a node and its descendants.
pub proof fn law_flatten_adjacency(levels: Seq<Seq<Node>>, d: nat, parent: nat)
    requires
        levels_wf(levels),
        flat_level(levels, d, parent) is Ok,
    ensures
        adjacent_blocks(levels, flat_level(levels, d, parent)->Ok_0),
        all_at_least(flat_level(levels, d, parent)->Ok_0, d),
{
    lemma_flat_blocks(levels, d, parent, level_len(levels, d));
}


/// A node lies at depth `d`.
pub open spec fn at_depth(d: nat) -> spec_fn(Node) -> bool {
    |n: Node| n.depth == d
}

/// A node links to the node with id `parent` one level up.
pub open spec fn links_to(parent: nat) -> spec_fn(Node) -> bool {
    |n: Node| n.parent == parent
}

proof fn lemma_filter_none(s: Seq<Node>, d: nat)
    requires
        all_at_least(s, d + 1),
    ensures
        s.filter(at_depth(d)) == Seq::<Node>::empty(),
    decreases s.len(),
{
    reveal_with_fuel(Seq::filter, 1);
    if s.len() > 0 {
        lemma_filter_none(s.drop_last(), d);
        assert(s.last() == s[s.len() - 1]);
    }
}

proof fn lemma_flat_selects(levels: Seq<Seq<Node>>, d: nat, parent: nat, k: int)
    requires
        levels_wf(levels),
        d < levels.len(),
        0 <= k <= levels[d as int].len(),
        flat_prefix(levels, d, parent, k) is Ok,
    ensures
        flat_prefix(levels, d, parent, k)->Ok_0.filter(at_depth(d)) == levels[d as int].take(k).filter(
            links_to(parent),
        ),
    decreases k,
{
    reveal_with_fuel(Seq::filter, 1);
    if k == 0 {
        assert(levels[d as int].take(0) =~= Seq::<Node>::empty());
    } else {
        lemma_flat_selects(levels, d, parent, k - 1);
        lemma_flat_blocks(levels, d, parent, k - 1);
        let done = flat_prefix(levels, d, parent, k - 1)->Ok_0;
        let n = levels[d as int][k - 1];
        assert(n.depth == d);
        assert(levels[d as int].take(k).drop_last() =~= levels[d as int].take(k - 1));
        if n.parent == parent {
            let b = if n.has_children {
                flat_prefix(levels, d + 1, n.id as nat, level_len(levels, d + 1))->Ok_0
            } else {
                Seq::<Node>::empty()
            };
            if n.has_children {
                lemma_flat_blocks(levels, d + 1, n.id as nat, level_len(levels, d + 1));
            }
            lemma_filter_none(b, d);
            Seq::filter_distributes_over_add(done.push(n), b, at_depth(d));
            assert(done.push(n).drop_last() =~= done);
            if !n.has_children {
                assert(done.push(n) + b =~= done.push(n));
            }
        }
    }
}

/// Flattening from level `d` places, at depth `d`, exactly the nodes of that
/// level that link to `parent`, each once and in level order; every other
/// node it places lies deeper.
pub proof fn law_flatten_selects_children(levels: Seq<Seq<Node>>, d: nat, parent: nat)
    requires
        levels_wf(levels),
        flat_level(levels, d, parent) is Ok,
    ensures
        flat_level(levels, d, parent)->Ok_0.filter(at_depth(d)) == levels[d as int].filter(
            links_to(parent),
        ),
        all_at_least(flat_level(levels, d, parent)->Ok_0, d),
{
    lemma_flat_selects(levels, d, parent, level_len(levels, d));
    lemma_flat_blocks(levels, d, parent, level_len(levels, d));
    assert(levels[d as int].take(levels[d as int].len() as int) =~= levels[d as int]);
}

} // verus!
