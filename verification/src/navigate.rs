use vstd::prelude::*;
use crate::builder::well_formed;
use crate::listing::{Row, RowView, SortKey, children_rows, row_views, rows_by_size, sorted_from};
use crate::tree::{Arena, NodeId, NodeView};

verus! {

/// How many children a tooltip lists.
pub const TOOLTIP_ROWS: usize = 8;

/// Whether `id` is a directory with something in it: what can be opened as
/// a treemap or expanded in the list.
pub open spec fn opens(nodes: Seq<NodeView>, id: NodeId) -> bool {
    nodes[id as int].is_dir && nodes[id as int].children.len() > 0
}

/// Whether node `id` is a directory with something in it.
pub fn can_open(arena: &Arena, id: NodeId) -> (res: bool)
    requires
        id < arena@.len(),
    ensures
        res == opens(arena@, id),
{
    let node = arena.get(id);
    node.is_dir && node.children.len() > 0
}

/// Whether the shown node `current` has a parent to go up to.
pub fn can_go_up(arena: &Arena, current: Option<NodeId>) -> (res: bool)
    requires
        current matches Some(id) ==> id < arena@.len(),
    ensures
        res == (current matches Some(id) && arena@[id as int].parent is Some),
{
    match current {
        Some(id) => arena.get(id).parent.is_some(),
        None => false,
    }
}

/// The node shown after going up from `current`: its parent, where it has one.
pub fn up_target(arena: &Arena, current: Option<NodeId>) -> (res: Option<NodeId>)
    requires
        current matches Some(id) ==> id < arena@.len(),
    ensures
        res == match current {
            Some(id) => arena@[id as int].parent,
            None => None,
        },
{
    match current {
        Some(id) => arena.get(id).parent,
        None => None,
    }
}

/// The sort column and direction after a click on the header of column
/// `clicked`: the same column turns the direction around; another column
/// becomes the sort column, descending.
pub open spec fn after_header_click(sort_col: usize, sort_desc: bool, clicked: usize) -> (usize, bool) {
    if sort_col == clicked {
        (sort_col, !sort_desc)
    } else {
        (clicked, true)
    }
}

/// The sort column and direction after a click on the header of column `clicked`.
pub fn header_click(sort_col: usize, sort_desc: bool, clicked: usize) -> (res: (usize, bool))
    ensures
        res == after_header_click(sort_col, sort_desc, clicked),
{
    if sort_col == clicked {
        (sort_col, !sort_desc)
    } else {
        (clicked, true)
    }
}

/// The size that shares of a node are taken of: its size, and 1 for an
/// empty node.
pub fn share_base(size: u64) -> (res: u64)
    ensures
        res == if size == 0 {
            1
        } else {
            size
        },
{
    if size == 0 {
        1
    } else {
        size
    }
}

/// What a tooltip lists of node `id`: its largest children, at most
/// `TOOLTIP_ROWS` of them, largest first, and how many children it leaves out.
pub fn tooltip_rows(arena: &Arena, id: NodeId) -> (res: (Vec<Row>, usize))
    requires
        well_formed(arena@),
        id < arena@.len(),
    ensures
        exists|all: Seq<RowView>|
            #![trigger sorted_from(all, children_rows(arena@, id), SortKey::Size, true)]
            sorted_from(all, children_rows(arena@, id), SortKey::Size, true) && row_views(res.0@) == if all.len()
                <= TOOLTIP_ROWS {
                all
            } else {
                all.take(TOOLTIP_ROWS as int)
            },
        res.1 == if arena@[id as int].children.len() > TOOLTIP_ROWS {
            arena@[id as int].children.len() - TOOLTIP_ROWS
        } else {
            0
        },
        res.0@.len() + res.1 == arena@[id as int].children.len(),
        res.0@.len() <= TOOLTIP_ROWS,
{
    let mut rows = rows_by_size(arena, id);
    let ghost all = row_views(rows@);
    let total = arena.get(id).children.len();
    proof {
        assert(all.len() == rows@.len());
        assert(all.to_multiset().len() == children_rows(arena@, id).to_multiset().len());
        all.to_multiset_ensures();
        children_rows(arena@, id).to_multiset_ensures();
    }
    rows.truncate(TOOLTIP_ROWS);
    proof {
        if all.len() > TOOLTIP_ROWS {
            assert(row_views(rows@) =~= all.take(TOOLTIP_ROWS as int));
        } else {
            assert(row_views(rows@) =~= all);
        }
    }
    let hidden = if total > TOOLTIP_ROWS {
        total - TOOLTIP_ROWS
    } else {
        0
    };
    (rows, hidden)
}

/// The children of `id` with a size above zero, with their sizes, in the
/// order the node lists them: what the treemap of `id` divides up.
pub fn sized_children(arena: &Arena, id: NodeId) -> (res: Vec<(NodeId, u64)>)
    requires
        well_formed(arena@),
        id < arena@.len(),
    ensures
        res@ == arena@[id as int].children.filter(|c: NodeId| arena@[c as int].size > 0).map_values(
            |c: NodeId| (c, arena@[c as int].size),
        ),
{
    let node = arena.get(id);
    let ghost kids = arena@[id as int].children;
    let ghost keep = |c: NodeId| arena@[c as int].size > 0;
    let ghost pair = |c: NodeId| (c, arena@[c as int].size);
    let mut res: Vec<(NodeId, u64)> = Vec::new();
    let mut k: usize = 0;
    while k < node.children.len()
        invariant
            well_formed(arena@),
            id < arena@.len(),
            node@ == arena@[id as int],
            kids == node.children@,
            keep == (|c: NodeId| arena@[c as int].size > 0),
            pair == (|c: NodeId| (c, arena@[c as int].size)),
            0 <= k <= node.children.len(),
            res@ == kids.take(k as int).filter(keep).map_values(pair),
        decreases node.children.len() - k,
    {
        let c = node.children[k];
        assert(arena@[id as int].children[k as int] == c);
        let size = arena.get(c).size;
        proof {
            assert(kids.take(k + 1).drop_last() =~= kids.take(k as int));
            assert(kids.take(k + 1).last() == c);
            reveal_with_fuel(Seq::filter, 1);
        }
        if size > 0 {
            res.push((c, size));
            proof {
                assert(kids.take(k + 1).filter(keep) == kids.take(k as int).filter(keep).push(c));
                assert(res@ =~= kids.take(k + 1).filter(keep).map_values(pair));
            }
        } else {
            proof {
                assert(kids.take(k + 1).filter(keep) == kids.take(k as int).filter(keep));
            }
        }
        k = k + 1;
    }
    proof {
        assert(kids.take(k as int) =~= kids);
    }
    res
}

/// Bytes in a GB.
pub const GB: u64 = 0x4000_0000;

/// Bytes in an MB.
pub const MB: u64 = 0x10_0000;

/// Bytes in a KB.
pub const KB: u64 = 0x400;

/// The unit a size is shown in.
#[derive(Debug, Clone, Copy, PartialEq, Eq)]
pub enum SizeUnit {
    Gigabytes,
    Megabytes,
    Kilobytes,
    Bytes,
}

/// The unit `bytes` is shown in: the largest of GB, MB and KB (of 2^30, 2^20
/// and 2^10 bytes) that is no more than `bytes`, else bytes.
pub fn size_unit(bytes: u64) -> (res: SizeUnit)
    ensures
        res == if bytes >= 0x4000_0000 {
            SizeUnit::Gigabytes
        } else if bytes >= 0x10_0000 {
            SizeUnit::Megabytes
        } else if bytes >= 0x400 {
            SizeUnit::Kilobytes
        } else {
            SizeUnit::Bytes
        },
{
    if bytes >= GB {
        SizeUnit::Gigabytes
    } else if bytes >= MB {
        SizeUnit::Megabytes
    } else if bytes >= KB {
        SizeUnit::Kilobytes
    } else {
        SizeUnit::Bytes
    }
}

/// Used and total bytes of a file system from its block counts: the total
/// is `blocks` fragments of `fragment_size` bytes, the used part what is not
/// free, and 0 where more is free than there is.
pub fn disk_totals(blocks: u64, free_blocks: u64, fragment_size: u64) -> (res: (u64, u64))
    requires
        blocks * fragment_size <= u64::MAX,
        free_blocks * fragment_size <= u64::MAX,
    ensures
        res.1 == blocks * fragment_size,
        res.0 == if free_blocks * fragment_size <= blocks * fragment_size {
            blocks * fragment_size - free_blocks * fragment_size
        } else {
            0
        },
{
    let total = blocks * fragment_size;
    let free = free_blocks * fragment_size;
    let used = total.saturating_sub(free);
    (used, total)
}

} // verus!
