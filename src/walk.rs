use vstd::prelude::*;

use crate::tree::{
    WalkEntry,
    build_levels,
    entry_bytes,
    lemma_build_wf,
    lemma_total_prefix,
    step,
    total_bytes,
};

verus! {

/// A walk in pre-order: it opens with the root directory at depth 0; every
/// later entry lies at depth 1 or more, at most one level below the entry
/// before it, and one level below only when that entry is a directory.
pub open spec fn preorder_walk(entries: Seq<WalkEntry>) -> bool {
    &&& entries.len() > 0
    &&& entries[0].is_dir
    &&& entries[0].depth == 0
    &&& forall|i: int|
        0 < i < entries.len() ==> {
            &&& 1 <= #[trigger] entries[i].depth <= entries[i - 1].depth + 1
            &&& entries[i].depth == entries[i - 1].depth + 1 ==> entries[i - 1].is_dir
        }
}

/// The first index from `j` on whose entry is no deeper than entry `k`, or the
/// walk's length.
pub open spec fn subtree_end_from(entries: Seq<WalkEntry>, k: int, j: int) -> int
    decreases entries.len() - j,
{
    if j >= entries.len() {
        entries.len() as int
    } else if entries[j].depth <= entries[k].depth {
        j
    } else {
        subtree_end_from(entries, k, j + 1)
    }
}

/// The index just past the subtree that entry `k` opens.
pub open spec fn subtree_end(entries: Seq<WalkEntry>, k: int) -> int {
    subtree_end_from(entries, k, k + 1)
}

/// The file bytes of the entries from index `a` up to, not including, `b`.
pub open spec fn range_bytes(entries: Seq<WalkEntry>, a: int, b: int) -> nat
    decreases b - a,
{
    if b <= a {
        0
    } else {
        range_bytes(entries, a, b - 1) + entry_bytes(entries[b - 1])
    }
}

/// The bytes of every file inside the directory that entry `k` opens.
pub open spec fn subtree_bytes(entries: Seq<WalkEntry>, k: int) -> nat {
    range_bytes(entries, k + 1, subtree_end(entries, k))
}

/// The number of directory entries at depth `d` among the first `n` entries.
pub open spec fn dirs_at(entries: Seq<WalkEntry>, d: nat, n: int) -> nat
    decreases n,
{
    if n <= 0 {
        0
    } else {
        dirs_at(entries, d, n - 1) + if entries[n - 1].is_dir && entries[n - 1].depth == d {
            1nat
        } else {
            0nat
        }
    }
}

/// The bytes that the builder adds to the node of directory entry `k` while it
/// reads the entries before index `n`: those of files deeper than `k` read while
/// that node is the last one at its depth.
pub open spec fn attributed(entries: Seq<WalkEntry>, k: int, n: int) -> nat
    decreases n - k,
{
    if n <= k + 1 {
        0
    } else {
        let e = entries[n - 1];
        let d = entries[k].depth as nat;
        attributed(entries, k, n - 1) + if !e.is_dir && e.depth > d && dirs_at(entries, d, n - 1)
            == dirs_at(entries, d, k) + 1 {
            e.len as nat
        } else {
            0nat
        }
    }
}

proof fn lemma_prefix_step(entries: Seq<WalkEntry>, n: int)
    requires
        0 < n <= entries.len(),
    ensures
        entries.take(n).drop_last() == entries.take(n - 1),
        entries.take(n).last() == entries[n - 1],
        build_levels(entries.take(n)) == match build_levels(entries.take(n - 1)) {
            Ok(levels) => step(levels, entries[n - 1]),
            Err(err) => Err(err),
        },
        total_bytes(entries.take(n)) == total_bytes(entries.take(n - 1)) + entry_bytes(entries[n - 1]),
{
    assert(entries.take(n).drop_last() =~= entries.take(n - 1));
}

/// Level `d` of what the first `n` entries build holds one node per directory
/// entry at depth `d` among them.
proof fn lemma_counts(entries: Seq<WalkEntry>, n: int)
    requires
        0 <= n <= entries.len(),
        build_levels(entries.take(n)) is Ok,
    ensures
        forall|d: int|
            0 <= d < build_levels(entries.take(n))->Ok_0.len() ==> #[trigger] build_levels(
                entries.take(n),
            )->Ok_0[d].len() == dirs_at(entries, d as nat, n),
        forall|d: int|
            d >= build_levels(entries.take(n))->Ok_0.len() ==> #[trigger] dirs_at(entries, d as nat, n)
                == 0,
    decreases n,
{
    if n == 0 {
        assert(entries.take(0) =~= Seq::<WalkEntry>::empty());
    } else {
        lemma_prefix_step(entries, n);
        lemma_counts(entries, n - 1);
        lemma_build_wf(entries.take(n - 1));
        let prev = build_levels(entries.take(n - 1))->Ok_0;
        let next = build_levels(entries.take(n))->Ok_0;
        assert forall|d: int| 0 <= d < next.len() implies #[trigger] next[d].len() == dirs_at(
            entries,
            d as nat,
            n,
        ) by {
            let e = entries[n - 1];
            let ed = e.depth as int;
            if d < prev.len() {
                assert(prev[d].len() == dirs_at(entries, d as nat, n - 1));
            } else {
                assert(dirs_at(entries, d as nat, n - 1) == 0);
            }
            if e.is_dir {
                let marked = if ed >= 1 {
                    prev.update(ed - 1, crate::tree::mark_last(prev[ed - 1]))
                } else {
                    prev
                };
                assert(d < prev.len() ==> marked[d].len() == prev[d].len());
                if d == ed {
                    assert(next[d].len() == marked[d].len() + 1 || (d == prev.len() && next[d].len() == 1));
                } else {
                    assert(next[d] == marked[d]);
                }
            } else {
                assert(next[d].len() == prev[d].len());
            }
        }
        assert forall|d: int| d >= next.len() implies #[trigger] dirs_at(entries, d as nat, n) == 0 by {
            assert(dirs_at(entries, d as nat, n - 1) == 0);
        }
    }
}

/// Every prefix of a pre-order walk builds, with a level for each depth it reached.
pub(crate) proof fn lemma_preorder_builds(entries: Seq<WalkEntry>, n: int)
    requires
        preorder_walk(entries),
        1 <= n <= entries.len(),
    ensures
        build_levels(entries.take(n)) is Ok,
        build_levels(entries.take(n))->Ok_0.len() >= entries[n - 1].depth + if entries[n - 1].is_dir {
            1int
        } else {
            0int
        },
    decreases n,
{
    lemma_prefix_step(entries, n);
    if n == 1 {
        assert(entries.take(0) =~= Seq::<WalkEntry>::empty());
    } else {
        lemma_preorder_builds(entries, n - 1);
        assert(1 <= entries[n - 1].depth <= entries[n - 2].depth + 1);
    }
}

/// In a pre-order walk, going from an entry no deeper than `d` to one deeper
/// than `d` passes a directory at depth `d`.
proof fn lemma_descent_passes(entries: Seq<WalkEntry>, a: int, b: int, d: nat) -> (j: int)
    requires
        preorder_walk(entries),
        0 <= a < b < entries.len(),
        entries[a].depth <= d < entries[b].depth,
    ensures
        a <= j < b,
        entries[j].is_dir,
        entries[j].depth == d,
    decreases b - a,
{
    assert(1 <= entries[b].depth <= entries[b - 1].depth + 1);
    if entries[b - 1].depth == d {
        b - 1
    } else {
        lemma_descent_passes(entries, a, b - 1, d)
    }
}

proof fn lemma_dirs_bound(entries: Seq<WalkEntry>, d: nat, n: int)
    requires
        0 <= n,
    ensures
        dirs_at(entries, d, n) <= n,
    decreases n,
{
    if n > 0 {
        lemma_dirs_bound(entries, d, n - 1);
    }
}

proof fn lemma_dirs_monotone(entries: Seq<WalkEntry>, d: nat, a: int, b: int)
    requires
        0 <= a <= b,
    ensures
        dirs_at(entries, d, a) <= dirs_at(entries, d, b),
    decreases b - a,
{
    if a < b {
        lemma_dirs_monotone(entries, d, a, b - 1);
    }
}

proof fn lemma_subtree_end_from(entries: Seq<WalkEntry>, k: int, j: int)
    requires
        0 <= k < j <= entries.len(),
        forall|i: int| k < i < j ==> #[trigger] entries[i].depth > entries[k].depth,
    ensures
        j <= subtree_end_from(entries, k, j) <= entries.len(),
        forall|i: int|
            k < i < subtree_end_from(entries, k, j) ==> #[trigger] entries[i].depth > entries[k].depth,
        subtree_end_from(entries, k, j) < entries.len() ==> entries[subtree_end_from(
            entries,
            k,
            j,
        )].depth <= entries[k].depth,
    decreases entries.len() - j,
{
    if j < entries.len() && entries[j].depth > entries[k].depth {
        lemma_subtree_end_from(entries, k, j + 1);
    }
}

/// While the builder reads a walk, the node of directory entry `k` keeps its
/// path and gathers exactly the bytes that `attributed` counts.
proof fn lemma_track(entries: Seq<WalkEntry>, k: int, n: int)
    requires
        0 <= k < n <= entries.len(),
        entries[k].is_dir,
        build_levels(entries.take(n)) is Ok,
        total_bytes(entries) <= u64::MAX,
        entries.len() <= usize::MAX,
    ensures
        ({
            let levels = build_levels(entries.take(n))->Ok_0;
            let d = entries[k].depth as int;
            let r = dirs_at(entries, entries[k].depth as nat, k) as int;
            &&& d < levels.len()
            &&& r < levels[d].len()
            &&& levels[d][r].path == entries[k].path
            &&& levels[d][r].size == attributed(entries, k, n)
            &&& levels[d][r].id == r
            &&& d >= 1 ==> levels[d][r].parent == dirs_at(entries, (d - 1) as nat, k) - 1
        }),
    decreases n,
{
    let d = entries[k].depth as int;
    let r = dirs_at(entries, entries[k].depth as nat, k) as int;
    lemma_prefix_step(entries, n);
    lemma_counts(entries, n - 1);
    lemma_counts(entries, n);
    let prev = build_levels(entries.take(n - 1))->Ok_0;
    let next = build_levels(entries.take(n))->Ok_0;
    let e = entries[n - 1];
    if n == k + 1 {
        if d < prev.len() {
            assert(prev[d].len() == r);
        } else {
            assert(dirs_at(entries, d as nat, n - 1) == 0);
            assert(r == 0);
        }
        lemma_dirs_bound(entries, d as nat, k);
        lemma_build_wf(entries.take(n - 1));
        if d >= 1 {
            assert(prev[d - 1].len() == dirs_at(entries, (d - 1) as nat, n - 1));
            lemma_dirs_bound(entries, (d - 1) as nat, k);
        }
    } else {
        lemma_track(entries, k, n - 1);
        assert(prev[d].len() == dirs_at(entries, d as nat, n - 1));
        if !e.is_dir && e.depth > d && r == prev[d].len() - 1 {
            lemma_build_wf(entries.take(n - 1));
            lemma_total_prefix(entries, n);
            assert(prev[d][r].size <= total_bytes(entries.take(n - 1)));
        }
    }
}

/// Outside the subtree of directory entry `k`, no bytes reach its node; inside
/// it, every file's bytes do.
proof fn lemma_attributed_is_subtree(entries: Seq<WalkEntry>, k: int, n: int)
    requires
        preorder_walk(entries),
        0 <= k < entries.len(),
        k + 1 <= n <= entries.len(),
        entries[k].is_dir,
    ensures
        attributed(entries, k, n) == range_bytes(
            entries,
            k + 1,
            if n <= subtree_end(entries, k) {
                n
            } else {
                subtree_end(entries, k)
            },
        ),
        n <= subtree_end(entries, k) ==> dirs_at(entries, entries[k].depth as nat, n) == dirs_at(
            entries,
            entries[k].depth as nat,
            k,
        ) + 1,
    decreases n,
{
    let d = entries[k].depth as nat;
    let end = subtree_end(entries, k);
    lemma_subtree_end_from(entries, k, k + 1);
    if n > k + 1 {
        let i = n - 1;
        lemma_attributed_is_subtree(entries, k, n - 1);
        if i >= end {
            let e = entries[i];
            if !e.is_dir && e.depth > d {
                let j = lemma_descent_passes(entries, end, i, d);
                lemma_dirs_monotone(entries, d, k + 1, j);
                lemma_dirs_monotone(entries, d, j + 1, i);
            }
        }
    }
}

/// In a pre-order walk whose file bytes fit in a `u64`, the builder succeeds,
/// and the node that a directory entry opens (the one at its depth, placed
/// after the directories met earlier at that depth) carries its path and
/// exactly the bytes of every file in its subtree, however deeply nested.
pub proof fn law_size_attribution(entries: Seq<WalkEntry>, k: int)
    requires
        preorder_walk(entries),
        total_bytes(entries) <= u64::MAX,
        entries.len() <= usize::MAX,
        0 <= k < entries.len(),
        entries[k].is_dir,
    ensures
        build_levels(entries) is Ok,
        ({
            let levels = build_levels(entries)->Ok_0;
            let d = entries[k].depth as int;
            let r = dirs_at(entries, entries[k].depth as nat, k) as int;
            &&& d < levels.len()
            &&& r < levels[d].len()
            &&& levels[d][r].path == entries[k].path
            &&& levels[d][r].size == subtree_bytes(entries, k)
        }),
{
    let n = entries.len() as int;
    assert(entries.take(n) =~= entries);
    lemma_preorder_builds(entries, n);
    lemma_track(entries, k, n);
    lemma_attributed_is_subtree(entries, k, n);
    lemma_subtree_end_from(entries, k, k + 1);
}


/// Whether the builder, while reading the entries before index `n`, met a
/// directory one level below directory entry `k` while `k`'s node was the last
/// one at its depth.
pub open spec fn child_seen(entries: Seq<WalkEntry>, k: int, n: int) -> bool
    decreases n - k,
{
    if n <= k + 1 {
        false
    } else {
        let e = entries[n - 1];
        let d = entries[k].depth as nat;
        child_seen(entries, k, n - 1) || (e.is_dir && e.depth == d + 1 && dirs_at(entries, d, n - 1)
            == dirs_at(entries, d, k) + 1)
    }
}

/// A directory one level below directory entry `k` lies in `k`'s subtree,
/// before index `n`.
pub open spec fn child_before(entries: Seq<WalkEntry>, k: int, n: int) -> bool {
    exists|j: int|
        k < j < n && j < subtree_end(entries, k) && #[trigger] entries[j].is_dir && entries[j].depth
            == entries[k].depth + 1
}

proof fn lemma_track_children(entries: Seq<WalkEntry>, k: int, n: int)
    requires
        0 <= k < n <= entries.len(),
        entries[k].is_dir,
        build_levels(entries.take(n)) is Ok,
        total_bytes(entries) <= u64::MAX,
        entries.len() <= usize::MAX,
    ensures
        ({
            let levels = build_levels(entries.take(n))->Ok_0;
            let d = entries[k].depth as int;
            let r = dirs_at(entries, entries[k].depth as nat, k) as int;
            levels[d][r].has_children == child_seen(entries, k, n)
        }),
    decreases n,
{
    let d = entries[k].depth as int;
    let r = dirs_at(entries, entries[k].depth as nat, k) as int;
    lemma_prefix_step(entries, n);
    lemma_counts(entries, n - 1);
    lemma_track(entries, k, n);
    if n == k + 1 {
        let prev = build_levels(entries.take(n - 1))->Ok_0;
        if d < prev.len() {
            assert(prev[d].len() == r);
        } else {
            assert(dirs_at(entries, d as nat, n - 1) == 0);
            assert(r == 0);
        }
    } else {
        lemma_track(entries, k, n - 1);
        lemma_track_children(entries, k, n - 1);
        let prev = build_levels(entries.take(n - 1))->Ok_0;
        assert(prev[d].len() == dirs_at(entries, d as nat, n - 1));
    }
}

proof fn lemma_children_in_subtree(entries: Seq<WalkEntry>, k: int, n: int)
    requires
        preorder_walk(entries),
        0 <= k < entries.len(),
        k + 1 <= n <= entries.len(),
        entries[k].is_dir,
    ensures
        child_seen(entries, k, n) == child_before(entries, k, n),
    decreases n,
{
    let d = entries[k].depth as nat;
    let end = subtree_end(entries, k);
    lemma_subtree_end_from(entries, k, k + 1);
    lemma_attributed_is_subtree(entries, k, n);
    if n > k + 1 {
        let i = n - 1;
        let e = entries[i];
        lemma_children_in_subtree(entries, k, n - 1);
        lemma_attributed_is_subtree(entries, k, n - 1);
        if i >= end && e.is_dir && e.depth == d + 1 {
            let j = lemma_descent_passes(entries, end, i, d);
            lemma_dirs_monotone(entries, d, k + 1, j);
            lemma_dirs_monotone(entries, d, j + 1, i);
        }
        if child_before(entries, k, n) && !child_before(entries, k, n - 1) {
            let j = choose|j: int|
                k < j < n && j < end && #[trigger] entries[j].is_dir && entries[j].depth == d + 1;
            assert(j == i);
        }
        if child_seen(entries, k, n) && !child_seen(entries, k, n - 1) {
            assert(entries[i].is_dir);
        }
    }
}

/// In a pre-order walk whose file bytes fit in a `u64`, the node that a
/// directory entry opens is marked as having children exactly when its
/// subtree holds a directory one level below it.
pub proof fn law_has_children(entries: Seq<WalkEntry>, k: int)
    requires
        preorder_walk(entries),
        total_bytes(entries) <= u64::MAX,
        entries.len() <= usize::MAX,
        0 <= k < entries.len(),
        entries[k].is_dir,
    ensures
        build_levels(entries) is Ok,
        ({
            let levels = build_levels(entries)->Ok_0;
            let d = entries[k].depth as int;
            let r = dirs_at(entries, entries[k].depth as nat, k) as int;
            &&& d < levels.len()
            &&& r < levels[d].len()
            &&& levels[d][r].has_children == child_before(entries, k, entries.len() as int)
        }),
{
    let n = entries.len() as int;
    assert(entries.take(n) =~= entries);
    lemma_preorder_builds(entries, n);
    lemma_track(entries, k, n);
    lemma_track_children(entries, k, n);
    lemma_children_in_subtree(entries, k, n);
}


/// In a pre-order walk whose file bytes fit in a `u64`, the node that a
/// directory entry opens is linked as built: its `id` is its place in its
/// level, and below the root its `parent` is the `id` of the last directory
/// met one level up before it, the directory that holds it.
pub proof fn law_links(entries: Seq<WalkEntry>, k: int)
    requires
        preorder_walk(entries),
        total_bytes(entries) <= u64::MAX,
        entries.len() <= usize::MAX,
        0 <= k < entries.len(),
        entries[k].is_dir,
    ensures
        build_levels(entries) is Ok,
        ({
            let levels = build_levels(entries)->Ok_0;
            let d = entries[k].depth as int;
            let r = dirs_at(entries, entries[k].depth as nat, k) as int;
            &&& d < levels.len()
            &&& r < levels[d].len()
            &&& levels[d][r].id == r
            &&& d >= 1 ==> levels[d][r].parent == dirs_at(entries, (d - 1) as nat, k) - 1
        }),
{
    let n = entries.len() as int;
    assert(entries.take(n) =~= entries);
    lemma_preorder_builds(entries, n);
    lemma_track(entries, k, n);
}


/// In a pre-order walk whose file bytes fit in a `u64`, a directory entry
/// followed by the walk's end or by an entry no deeper than it (an empty
/// directory) opens a node of size 0 without children.
pub proof fn law_empty_directory(entries: Seq<WalkEntry>, k: int)
    requires
        preorder_walk(entries),
        total_bytes(entries) <= u64::MAX,
        entries.len() <= usize::MAX,
        0 <= k < entries.len(),
        entries[k].is_dir,
        k + 1 == entries.len() || entries[k + 1].depth <= entries[k].depth,
    ensures
        build_levels(entries) is Ok,
        ({
            let levels = build_levels(entries)->Ok_0;
            let d = entries[k].depth as int;
            let r = dirs_at(entries, entries[k].depth as nat, k) as int;
            &&& d < levels.len()
            &&& r < levels[d].len()
            &&& levels[d][r].path == entries[k].path
            &&& levels[d][r].size == 0
            &&& !levels[d][r].has_children
        }),
{
    law_size_attribution(entries, k);
    law_has_children(entries, k);
    assert(subtree_end(entries, k) == k + 1);
}

} // verus!
