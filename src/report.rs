use vstd::prelude::*;

use crate::tree::Node;

verus! {

pub const KB: u64 = 1024;
pub const MB: u64 = 1048576;
pub const GB: u64 = 1073741824;

/// The unit a size is shown in.
#[derive(Debug, Clone, Copy, PartialEq, Eq, Structural)]
pub enum SizeUnit {
    Kb,
    Mb,
    Gb,
}

/// Sizes below one MB show in KB, sizes below one GB in MB, the rest in GB.
pub open spec fn unit_of(size: u64) -> SizeUnit {
    if size >= GB {
        SizeUnit::Gb
    } else if size >= MB {
        SizeUnit::Mb
    } else {
        SizeUnit::Kb
    }
}

/// The bytes in one of a unit.
pub open spec fn bytes_in(unit: SizeUnit) -> u64 {
    match unit {
        SizeUnit::Kb => KB,
        SizeUnit::Mb => MB,
        SizeUnit::Gb => GB,
    }
}

/// The suffix that follows a size in that unit.
pub open spec fn suffix_of(unit: SizeUnit) -> Seq<char> {
    match unit {
        SizeUnit::Kb => seq!['K', 'B'],
        SizeUnit::Mb => seq!['M', 'B'],
        SizeUnit::Gb => seq!['G', 'B'],
    }
}

impl SizeUnit {
    /// The unit that `size` bytes show in.
    pub fn for_size(size: u64) -> (r: SizeUnit)
        ensures
            r == unit_of(size),
    {
        if size >= GB {
            SizeUnit::Gb
        } else if size >= MB {
            SizeUnit::Mb
        } else {
            SizeUnit::Kb
        }
    }

    /// The bytes in one of this unit.
    pub fn divisor(&self) -> (r: u64)
        ensures
            r == bytes_in(*self),
    {
        match self {
            SizeUnit::Kb => KB,
            SizeUnit::Mb => MB,
            SizeUnit::Gb => GB,
        }
    }

    /// The suffix, `KB`, `MB` or `GB`.
    pub fn suffix(&self) -> (r: &'static str)
        ensures
            r@ == suffix_of(*self),
    {
        proof {
            reveal_strlit("KB");
            reveal_strlit("MB");
            reveal_strlit("GB");
        }
        match self {
            SizeUnit::Kb => "KB",
            SizeUnit::Mb => "MB",
            SizeUnit::Gb => "GB",
        }
    }
}

/// A node lies no deeper than `max_depth`.
pub open spec fn within_depth(max_depth: usize) -> spec_fn(Node) -> bool {
    |n: Node| n.depth <= max_depth
}

/// Keeps the nodes no deeper than `max_depth`, in their order.
pub fn filter_depth(nodes: &Vec<Node>, max_depth: usize) -> (r: Vec<Node>)
    ensures
        r@ == nodes@.filter(within_depth(max_depth)),
{
    let mut out: Vec<Node> = Vec::new();
    let mut i: usize = 0;
    assert(nodes@.take(0) =~= Seq::<Node>::empty());
    while i < nodes.len()
        invariant
            i <= nodes.len(),
            out@ == nodes@.take(i as int).filter(within_depth(max_depth)),
        decreases nodes.len() - i,
    {
        let node = &nodes[i];
        assert(nodes@.take(i + 1).drop_last() =~= nodes@.take(i as int));
        reveal_with_fuel(Seq::filter, 1);
        if node.depth <= max_depth {
            out.push(node.duplicate());
        }
        i = i + 1;
    }
    assert(nodes@.take(i as int) =~= nodes@);
    out
}


/// Filtering by depth a second time, with the same bound, changes nothing.
pub proof fn law_filter_idempotent(nodes: Seq<Node>, max_depth: usize)
    ensures
        nodes.filter(within_depth(max_depth)).filter(within_depth(max_depth)) == nodes.filter(
            within_depth(max_depth),
        ),
    decreases nodes.len(),
{
    let f = within_depth(max_depth);
    reveal_with_fuel(Seq::filter, 1);
    if nodes.len() > 0 {
        let prev = nodes.drop_last();
        law_filter_idempotent(prev, max_depth);
        if f(nodes.last()) {
            let once = nodes.filter(f);
            assert(once == prev.filter(f).push(nodes.last()));
            assert(once.drop_last() =~= prev.filter(f));
        }
    }
}

} // verus!
