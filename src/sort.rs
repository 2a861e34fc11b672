use vstd::prelude::*;

use crate::tree::{Node, levels_view};

verus! {

/// `p` is a permutation of `0..n`.
pub open spec fn is_perm(p: Seq<int>, n: int) -> bool {
    &&& p.len() == n
    &&& forall|i: int| 0 <= i < n ==> 0 <= #[trigger] p[i] < n
    &&& forall|i: int, j: int| 0 <= i < j < n ==> p[i] != p[j]
}

/// Node `a`, first taken from position `pa`, goes before node `b`, taken from
/// position `pb`: it is larger, or as large and earlier.
pub open spec fn goes_before(a: Node, b: Node, pa: int, pb: int) -> bool {
    a.size > b.size || (a.size == b.size && pa < pb)
}

/// `out` is `input` rearranged by `p`, by size descending, equal sizes kept
/// in their order in `input`.
pub open spec fn stable_sorted_by(out: Seq<Node>, input: Seq<Node>, p: Seq<int>) -> bool {
    &&& out.len() == input.len()
    &&& is_perm(p, input.len() as int)
    &&& forall|i: int| 0 <= i < out.len() ==> out[i] == input[#[trigger] p[i]]
    &&& forall|i: int, j: int|
        0 <= i < j < out.len() ==> goes_before(#[trigger] out[i], #[trigger] out[j], p[i], p[j])
}

/// `out` is the stable size-descending sort of `input`.
pub open spec fn stable_sorted(out: Seq<Node>, input: Seq<Node>) -> bool {
    exists|p: Seq<int>| stable_sorted_by(out, input, p)
}

/// No node is smaller than one after it.
pub open spec fn size_descending(s: Seq<Node>) -> bool {
    forall|i: int, j: int| 0 <= i < j < s.len() ==> (#[trigger] s[i]).size >= (#[trigger] s[j]).size
}

/// Sorts one level by size, largest first; nodes of equal size keep their order.
pub fn sort_level(level: &mut Vec<Node>)
    ensures
        stable_sorted(final(level)@, old(level)@),
        size_descending(final(level)@),
{
    let ghost input = level@;
    let n = level.len();
    let ghost mut p: Seq<int> = Seq::new(n as nat, |j: int| j);
    let mut i: usize = 0;
    while i < n
        invariant
            n == level.len(),
            i <= n,
            input == old(level)@,
            input.len() == n,
            p.len() == n,
            forall|j: int| 0 <= j < n ==> 0 <= #[trigger] p[j] < n,
            forall|a: int, b: int| 0 <= a < b < n ==> p[a] != p[b],
            forall|j: int| 0 <= j < n ==> level@[j] == input[#[trigger] p[j]],
            forall|j: int| i <= j < n ==> #[trigger] p[j] == j,
            forall|j: int| 0 <= j < i ==> #[trigger] p[j] < i,
            forall|a: int, b: int|
                0 <= a < b < i ==> goes_before(#[trigger] level@[a], #[trigger] level@[b], p[a], p[b]),
        decreases n - i,
    {
        let ghost before = level@;
        let x = level.remove(i);
        let ghost rest = level@;
        let mut k: usize = i;
        while k > 0 && level[k - 1].size < x.size
            invariant
                k <= i < n,
                level@ == rest,
                rest.len() == n - 1,
                forall|m: int| k <= m < i ==> (#[trigger] rest[m]).size < x.size,
            decreases k,
        {
            k = k - 1;
        }
        level.insert(k, x);
        proof {
            let q = p.remove(i as int).insert(k as int, i as int);
            assert forall|j: int| 0 <= j < n implies level@[j] == input[#[trigger] q[j]] by {
                if j < k {
                    assert(level@[j] == before[j]);
                    assert(q[j] == p[j]);
                } else if j == k {
                    assert(level@[j] == before[i as int]);
                    assert(p[i as int] == i);
                } else {
                    if j <= i {
                        assert(level@[j] == before[j - 1]);
                        assert(q[j] == p[j - 1]);
                    } else {
                        assert(level@[j] == before[j]);
                        assert(q[j] == p[j]);
                    }
                }
            }
            assert forall|a: int, b: int| 0 <= a < b < i + 1 implies goes_before(
                #[trigger] level@[a],
                #[trigger] level@[b],
                q[a],
                q[b],
            ) by {
                if a < k && b < k {
                    assert(goes_before(before[a], before[b], p[a], p[b]));
                } else if a < k && b == k {
                    assert(x.size <= before[k - 1].size);
                    if a < k - 1 {
                        assert(goes_before(before[a], before[k - 1], p[a], p[k - 1]));
                    }
                } else if a < k {
                    assert(goes_before(before[a], before[b - 1], p[a], p[b - 1]));
                } else if a == k {
                    assert(rest[b - 1].size < x.size);
                } else {
                    assert(goes_before(before[a - 1], before[b - 1], p[a - 1], p[b - 1]));
                }
            }
            assert forall|a: int, b: int| 0 <= a < b < n implies q[a] != q[b] by {
                if a < k {
                    if b <= i {
                        assert(p[a] < i);
                    }
                }
                if a > k && a <= i {
                    if b > i {
                        assert(p[a - 1] < i);
                    }
                }
                if a == k {
                    if b <= i {
                        assert(p[b - 1] < i);
                    }
                }
            }
            p = q;
        }
        i = i + 1;
    }
    proof {
        assert(stable_sorted_by(level@, input, p));
        assert forall|a: int, b: int| 0 <= a < b < level@.len() implies (#[trigger] level@[a]).size
            >= (#[trigger] level@[b]).size by {
            assert(goes_before(level@[a], level@[b], p[a], p[b]));
        }
    }
}

/// Sorts every level independently by size, largest first, keeping the
/// walk order among equal sizes. No node changes level.
pub fn sort_tree(levels: &mut Vec<Vec<Node>>)
    ensures
        final(levels)@.len() == old(levels)@.len(),
        forall|d: int|
            0 <= d < old(levels)@.len() ==> stable_sorted(#[trigger] levels_view(final(levels)@)[d], levels_view(old(levels)@)[d]),
        forall|d: int|
            0 <= d < old(levels)@.len() ==> size_descending(#[trigger] levels_view(final(levels)@)[d]),
{
    let n = levels.len();
    let mut d: usize = 0;
    while d < n
        invariant
            n == levels.len(),
            n == old(levels)@.len(),
            d <= n,
            forall|j: int| d <= j < n ==> #[trigger] levels@[j]@ == old(levels)@[j]@,
            forall|j: int| 0 <= j < d ==> stable_sorted(#[trigger] levels@[j]@, old(levels)@[j]@),
            forall|j: int| 0 <= j < d ==> size_descending(#[trigger] levels@[j]@),
        decreases n - d,
    {
        let mut level: Vec<Node> = Vec::new();
        levels.set_and_swap(d, &mut level);
        sort_level(&mut level);
        levels.set(d, level);
        d = d + 1;
    }
}

} // verus!
