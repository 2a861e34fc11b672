use vstd::prelude::*;

use crate::walk::{lemma_preorder_builds, preorder_walk};

verus! {

/// One record of a directory walk, in the order the walk produced it.
/// `len` is the file's byte length; it is not read for a directory.
#[derive(Debug, Clone)]
pub struct WalkEntry {
    pub path: String,
    pub depth: usize,
    pub is_dir: bool,
    pub len: u64,
}

/// A directory of the scanned tree, with the bytes of every file below it.
/// `id` is the node's place in its level as built, before any sorting;
/// `parent` is the `id` of the directory one level up that holds it (0 at the root).
#[derive(Debug, Clone)]
pub struct Node {
    pub path: String,
    pub depth: usize,
    pub size: u64,
    pub has_children: bool,
    pub id: usize,
    pub parent: usize,
}

/// Why a walk could not be turned into a level collection or flattened.
#[derive(Debug, Clone, Copy, PartialEq, Eq)]
pub enum TreeError {
    /// The walk's root is a file, not a directory.
    RootNotDirectory,
    /// An entry at this depth has no open ancestor directory one level up.
    InvariantViolation(usize),
    /// A directory that has children points at this depth, which holds no level.
    MissingLevel(usize),
}

impl Node {
    /// A field-for-field copy.
    pub fn duplicate(&self) -> (r: Node)
        ensures
            r == *self,
    {
        Node {
            path: self.path.clone(),
            depth: self.depth,
            size: self.size,
            has_children: self.has_children,
            id: self.id,
            parent: self.parent,
        }
    }
}

/// The node that a directory entry opens, at place `id` of its level, below
/// the node at place `parent` one level up.
pub open spec fn dir_node(e: WalkEntry, id: int, parent: int) -> Node {
    Node {
        path: e.path,
        depth: e.depth,
        size: 0,
        has_children: false,
        id: id as usize,
        parent: parent as usize,
    }
}

/// The level with its last node marked as having children.
pub open spec fn mark_last(level: Seq<Node>) -> Seq<Node> {
    level.update(level.len() - 1, Node { has_children: true, ..level.last() })
}

/// The level with `len` bytes added to its last node.
pub open spec fn grow_last(level: Seq<Node>, len: u64) -> Seq<Node> {
    level.update(level.len() - 1, Node { size: (level.last().size + len) as u64, ..level.last() })
}

/// The bytes that a file entry contributes; a directory contributes none.
pub open spec fn entry_bytes(e: WalkEntry) -> nat {
    if e.is_dir {
        0
    } else {
        e.len as nat
    }
}

/// The bytes of all file entries of a walk.
pub open spec fn total_bytes(entries: Seq<WalkEntry>) -> nat
    decreases entries.len(),
{
    if entries.len() == 0 {
        0
    } else {
        total_bytes(entries.drop_last()) + entry_bytes(entries.last())
    }
}

/// The level collection after one more walk entry. A directory is appended
/// to the level of its depth, linked to the last node one level up, which it
/// marks as having children; a file
/// adds its bytes to the last node of every shallower level.
pub open spec fn step(levels: Seq<Seq<Node>>, e: WalkEntry) -> Result<Seq<Seq<Node>>, TreeError> {
    let d = e.depth as int;
    if e.is_dir {
        if d > levels.len() {
            Err(TreeError::InvariantViolation(e.depth))
        } else {
            let id = if d < levels.len() {
                levels[d].len() as int
            } else {
                0
            };
            let parent = if d >= 1 {
                levels[d - 1].len() - 1
            } else {
                0
            };
            let node = dir_node(e, id, parent);
            let marked = if d >= 1 {
                levels.update(d - 1, mark_last(levels[d - 1]))
            } else {
                levels
            };
            if d == levels.len() {
                Ok(marked.push(seq![node]))
            } else {
                Ok(marked.update(d, marked[d].push(node)))
            }
        }
    } else if d == 0 {
        Err(TreeError::RootNotDirectory)
    } else if d > levels.len() {
        Err(TreeError::InvariantViolation(e.depth))
    } else {
        Ok(Seq::new(levels.len(), |i: int| if i < d { grow_last(levels[i], e.len) } else { levels[i] }))
    }
}

/// The level collection that a walk builds, entry by entry from the first;
/// the first failing entry decides the error.
pub open spec fn build_levels(entries: Seq<WalkEntry>) -> Result<Seq<Seq<Node>>, TreeError>
    decreases entries.len(),
{
    if entries.len() == 0 {
        Ok(Seq::empty())
    } else {
        match build_levels(entries.drop_last()) {
            Ok(levels) => step(levels, entries.last()),
            Err(err) => Err(err),
        }
    }
}

/// Every level holds at least one node, and each node of level `d` has depth `d`.
pub open spec fn levels_wf(levels: Seq<Seq<Node>>) -> bool {
    forall|d: int|
        0 <= d < levels.len() ==> {
            &&& #[trigger] levels[d].len() > 0
            &&& forall|j: int| 0 <= j < levels[d].len() ==> #[trigger] levels[d][j].depth == d
        }
}

/// Every node's size is at most `bound`.
pub open spec fn sizes_within(levels: Seq<Seq<Node>>, bound: nat) -> bool {
    forall|d: int, j: int|
        0 <= d < levels.len() && 0 <= j < levels[d].len() ==> #[trigger] levels[d][j].size <= bound
}

/// The collection held in nested vectors, as sequences.
pub open spec fn levels_view(levels: Seq<Vec<Node>>) -> Seq<Seq<Node>> {
    Seq::new(levels.len(), |d: int| levels[d]@)
}

pub open spec fn result_view(r: Result<Vec<Vec<Node>>, TreeError>) -> Result<Seq<Seq<Node>>, TreeError> {
    match r {
        Ok(levels) => Ok(levels_view(levels@)),
        Err(err) => Err(err),
    }
}

/// What the builder reaches is well formed, and no node holds more bytes than the walk.
pub proof fn lemma_build_wf(entries: Seq<WalkEntry>)
    ensures
        build_levels(entries) is Ok ==> levels_wf(build_levels(entries)->Ok_0)
            && sizes_within(build_levels(entries)->Ok_0, total_bytes(entries)),
    decreases entries.len(),
{
    if entries.len() > 0 {
        let prev = entries.drop_last();
        lemma_build_wf(prev);
        if let Ok(levels) = build_levels(prev) {
            let e = entries.last();
            if let Ok(next) = step(levels, e) {
                let t = total_bytes(entries);
                assert forall|d: int, j: int|
                    0 <= d < next.len() && 0 <= j < next[d].len() implies #[trigger] next[d][j].size <= t by {
                    if d < levels.len() && j < levels[d].len() {
                        assert(levels[d][j].size <= total_bytes(prev));
                    }
                }
            }
        }
    }
}

/// A prefix of a walk holds no more file bytes than the walk.
pub proof fn lemma_total_prefix(entries: Seq<WalkEntry>, n: int)
    requires
        0 <= n <= entries.len(),
    ensures
        total_bytes(entries.take(n)) <= total_bytes(entries),
    decreases entries.len(),
{
    if n < entries.len() {
        assert(entries.drop_last().take(n) =~= entries.take(n));
        lemma_total_prefix(entries.drop_last(), n);
    } else {
        assert(entries.take(n) =~= entries);
    }
}


/// Marks the last node of a level as having children.
fn mark_last_node(level: &mut Vec<Node>)
    requires
        old(level).len() > 0,
    ensures
        final(level)@ == mark_last(old(level)@),
{
    let mut last = level.pop().unwrap();
    last.has_children = true;
    level.push(last);
    assert(final(level)@ =~= mark_last(old(level)@));
}

/// Adds `len` bytes to the last node of a level.
fn grow_last_node(level: &mut Vec<Node>, len: u64)
    requires
        old(level).len() > 0,
        old(level)@.last().size + len <= u64::MAX,
    ensures
        final(level)@ == grow_last(old(level)@, len),
{
    let mut last = level.pop().unwrap();
    last.size = last.size + len;
    level.push(last);
    assert(final(level)@ =~= grow_last(old(level)@, len));
}

/// Applies one walk entry to the level collection.
fn apply_entry(levels: &mut Vec<Vec<Node>>, e: &WalkEntry) -> (r: Result<(), TreeError>)
    requires
        levels_wf(levels_view(old(levels)@)),
        sizes_within(levels_view(old(levels)@), (u64::MAX - entry_bytes(*e)) as nat),
        entry_bytes(*e) <= u64::MAX,
    ensures
        match step(levels_view(old(levels)@), *e) {
            Ok(next) => r is Ok && levels_view(final(levels)@) == next,
            Err(err) => r == Err::<(), TreeError>(err),
        },
{
    let ghost before = levels_view(levels@);
    let d = e.depth;
    if e.is_dir {
        if d > levels.len() {
            return Err(TreeError::InvariantViolation(d));
        }
        let parent: usize = if d >= 1 {
            levels[d - 1].len() - 1
        } else {
            0
        };
        let id: usize = if d < levels.len() {
            levels[d].len()
        } else {
            0
        };
        let ghost fresh_node = dir_node(*e, id as int, parent as int);
        if d >= 1 {
            let mut above: Vec<Node> = Vec::new();
            levels.set_and_swap(d - 1, &mut above);
            assert(above@ == before[d - 1]);
            mark_last_node(&mut above);
            levels.set(d - 1, above);
        }
        let ghost marked = levels_view(levels@);
        assert(marked =~= (if d >= 1 { before.update(d - 1, mark_last(before[d - 1])) } else { before }));
        let node = Node { path: e.path.clone(), depth: d, size: 0, has_children: false, id, parent };
        if d == levels.len() {
            let mut fresh: Vec<Node> = Vec::new();
            fresh.push(node);
            assert(fresh@ =~= seq![fresh_node]);
            levels.push(fresh);
            assert(levels_view(levels@) =~= marked.push(seq![fresh_node]));
        } else {
            let mut level: Vec<Node> = Vec::new();
            levels.set_and_swap(d, &mut level);
            assert(level@ == marked[d as int]);
            level.push(node);
            levels.set(d, level);
            assert(levels_view(levels@) =~= marked.update(d as int, marked[d as int].push(fresh_node)));
        }
        Ok(())
    } else if d == 0 {
        Err(TreeError::RootNotDirectory)
    } else if d > levels.len() {
        Err(TreeError::InvariantViolation(d))
    } else {
        let mut i: usize = 0;
        while i < d
            invariant
                i <= d <= levels.len(),
                before == levels_view(old(levels)@),
                levels_wf(before),
                sizes_within(before, (u64::MAX - entry_bytes(*e)) as nat),
                !e.is_dir,
                levels@.len() == before.len(),
                forall|j: int| 0 <= j < before.len() ==> #[trigger] levels@[j]@ == if j < i {
                    grow_last(before[j], e.len)
                } else {
                    before[j]
                },
            decreases d - i,
        {
            let mut level: Vec<Node> = Vec::new();
            levels.set_and_swap(i, &mut level);
            assert(level@ == before[i as int]);
            assert(level@[level@.len() - 1] == level@.last());
            grow_last_node(&mut level, e.len);
            levels.set(i, level);
            i = i + 1;
        }
        assert(levels_view(levels@) =~= Seq::new(before.len(), |j: int| if j < d { grow_last(before[j], e.len) } else { before[j] }));
        Ok(())
    }
}

/// Builds the level collection from a walk, in walk order. The sum of all
/// file bytes must fit in a `u64`, so that no size can overflow. A pre-order
/// walk always builds.
pub fn build_tree(entries: &Vec<WalkEntry>) -> (r: Result<Vec<Vec<Node>>, TreeError>)
    requires
        total_bytes(entries@) <= u64::MAX,
    ensures
        result_view(r) == build_levels(entries@),
        preorder_walk(entries@) ==> r is Ok,
{
    proof {
        if preorder_walk(entries@) {
            assert(entries@.take(entries@.len() as int) =~= entries@);
            lemma_preorder_builds(entries@, entries@.len() as int);
        }
    }
    let mut levels: Vec<Vec<Node>> = Vec::new();
    let mut i: usize = 0;
    assert(entries@.take(0) =~= Seq::<WalkEntry>::empty());
    assert(levels_view(levels@) =~= Seq::<Seq<Node>>::empty());
    while i < entries.len()
        invariant
            i <= entries.len(),
            total_bytes(entries@) <= u64::MAX,
            build_levels(entries@.take(i as int)) == Ok::<Seq<Seq<Node>>, TreeError>(levels_view(levels@)),
        decreases entries.len() - i,
    {
        let e = &entries[i];
        let ghost prefix = entries@.take(i as int);
        let ghost next = entries@.take(i + 1);
        proof {
            assert(next.drop_last() =~= prefix);
            assert(next.last() == *e);
            lemma_build_wf(prefix);
            lemma_total_prefix(entries@, i + 1);
            let lv = levels_view(levels@);
            assert forall|a: int, b: int| 0 <= a < lv.len() && 0 <= b < lv[a].len() implies
                #[trigger] lv[a][b].size <= (u64::MAX - entry_bytes(*e)) as nat by {
                assert(lv[a][b].size <= total_bytes(prefix));
            }
        }
        match apply_entry(&mut levels, e) {
            Ok(()) => {},
            Err(err) => {
                proof {
                    assert(entries@.take(entries@.len() as int) =~= entries@);
                    lemma_error_sticks(entries@, i + 1);
                }
                return Err(err);
            },
        }
        i = i + 1;
    }
    assert(entries@.take(i as int) =~= entries@);
    Ok(levels)
}

/// Once a prefix of the walk fails, the whole walk fails with the same error.
proof fn lemma_error_sticks(entries: Seq<WalkEntry>, n: int)
    requires
        0 <= n <= entries.len(),
        build_levels(entries.take(n)) is Err,
    ensures
        build_levels(entries) == build_levels(entries.take(n)),
    decreases entries.len() - n,
{
    if n < entries.len() {
        assert(entries.take(n + 1).drop_last() =~= entries.take(n));
        lemma_error_sticks(entries, n + 1);
    } else {
        assert(entries.take(n) =~= entries);
    }
}

} // verus!
