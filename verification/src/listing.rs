use vstd::prelude::*;
use std::cmp::Ordering;
use crate::builder::well_formed;
use crate::order::{flip, flipped, law_bytes_order, law_number_order, law_text_order_bytes, number_compare, number_order, text_compare, text_order};
use vstd::utf8::encode_utf8;
use crate::tree::{Arena, NodeId, NodeView};

verus! {

/// One line of the file list: a node and what the list shows of it.
#[derive(Debug)]
pub struct Row {
    pub id: NodeId,
    pub name: String,
    pub size: u64,
    pub is_dir: bool,
    pub children: Vec<NodeId>,
}

/// What the file list is ordered by: the name, the size, or the number of
/// entries a row holds.
#[derive(Clone, Copy, Debug, PartialEq, Eq, Structural)]
pub enum SortKey {
    Name,
    Size,
    Files,
}

/// The key of column `col` of the file list: the name column (0), the
/// entry-count column (3), and the size for the size and share columns.
pub open spec fn column_key(col: usize) -> SortKey {
    if col == 0 {
        SortKey::Name
    } else if col == 3 {
        SortKey::Files
    } else {
        SortKey::Size
    }
}

/// The order of two entry counts.
pub open spec fn count_order(a: nat, b: nat) -> Ordering {
    if a < b {
        Ordering::Less
    } else if a == b {
        Ordering::Equal
    } else {
        Ordering::Greater
    }
}

/// The mathematical value of a [`Row`].
pub struct RowView {
    pub id: NodeId,
    pub name: Seq<char>,
    pub size: u64,
    pub is_dir: bool,
    pub children: Seq<NodeId>,
}

impl View for Row {
    type V = RowView;

    open spec fn view(&self) -> RowView {
        RowView {
            id: self.id,
            name: self.name@,
            size: self.size,
            is_dir: self.is_dir,
            children: self.children@,
        }
    }
}

/// The row of node `id`.
pub open spec fn row_of(nodes: Seq<NodeView>, id: NodeId) -> RowView {
    let n = nodes[id as int];
    RowView { id: id, name: n.name, size: n.size, is_dir: n.is_dir, children: n.children }
}

/// The rows of the children of `id`, in the order the node lists them.
pub open spec fn children_rows(nodes: Seq<NodeView>, id: NodeId) -> Seq<RowView> {
    nodes[id as int].children.map_values(|c: NodeId| row_of(nodes, c))
}

/// The views of `rows`.
pub open spec fn row_views(rows: Seq<Row>) -> Seq<RowView> {
    rows.map_values(|r: Row| r@)
}

/// The order of two rows by `key`, turned around where `desc`.
pub open spec fn row_order(a: RowView, b: RowView, key: SortKey, desc: bool) -> Ordering {
    let o = match key {
        SortKey::Name => text_order(a.name, b.name),
        SortKey::Size => number_order(a.size, b.size),
        SortKey::Files => count_order(a.children.len(), b.children.len()),
    };
    if desc {
        flipped(o)
    } else {
        o
    }
}

/// `sorted` holds the rows of `rows` ordered by `row_order`, rows that order
/// as equal keeping their order in `rows`.
pub open spec fn sorted_from(sorted: Seq<RowView>, rows: Seq<RowView>, key: SortKey, desc: bool) -> bool {
    &&& sorted.to_multiset() == rows.to_multiset()
    &&& in_row_order(sorted, key, desc)
    &&& forall|r: RowView| #[trigger] ties(sorted, r, key, desc) == ties(rows, r, key, desc)
}

/// The rows of `rows` that order as equal to `r`, in their order.
pub open spec fn ties(rows: Seq<RowView>, r: RowView, key: SortKey, desc: bool) -> Seq<RowView> {
    rows.filter(|x: RowView| row_order(x, r, key, desc) == Ordering::Equal)
}

/// The order of rows is a total preorder, as a sort needs: turning the
/// arguments around turns the result around, a row is equal to itself, and
/// it is transitive.
pub proof fn law_row_order(a: RowView, b: RowView, c: RowView, key: SortKey, desc: bool)
    ensures
        row_order(b, a, key, desc) == flipped(row_order(a, b, key, desc)),
        row_order(a, a, key, desc) == Ordering::Equal,
        row_order(a, b, key, desc) != Ordering::Greater && row_order(b, c, key, desc)
            != Ordering::Greater ==> row_order(a, c, key, desc) != Ordering::Greater,
{
    let (x, y, z) = (encode_utf8(a.name), encode_utf8(b.name), encode_utf8(c.name));
    law_bytes_order(x, y, z);
    law_bytes_order(z, y, x);
    law_bytes_order(y, x, z);
    law_bytes_order(x, x, x);
    law_bytes_order(y, z, x);
}

/// By size, rows are ordered as their sizes are as integers, smaller first,
/// or larger first where `desc`; rows of one size are equal.
pub proof fn law_row_order_by_size(a: RowView, b: RowView, desc: bool)
    ensures
        (row_order(a, b, SortKey::Size, desc) == Ordering::Less) == if desc {
            a.size > b.size
        } else {
            a.size < b.size
        },
        (row_order(a, b, SortKey::Size, desc) == Ordering::Equal) == (a.size == b.size),
        (row_order(a, b, SortKey::Size, desc) == Ordering::Greater) == if desc {
            a.size < b.size
        } else {
            a.size > b.size
        },
{
    law_number_order(a.size, b.size);
}

/// By entry count, rows are ordered as the numbers of their entries are,
/// fewer first, or more first where `desc`.
pub proof fn law_row_order_by_count(a: RowView, b: RowView, desc: bool)
    ensures
        (row_order(a, b, SortKey::Files, desc) == Ordering::Less) == if desc {
            a.children.len() > b.children.len()
        } else {
            a.children.len() < b.children.len()
        },
        (row_order(a, b, SortKey::Files, desc) == Ordering::Equal) == (a.children.len() == b.children.len()),
{
}

/// By name, rows are ordered by the bytes of their names: where the names
/// agree on their first `i` bytes and differ at `i`, the smaller byte comes
/// first, or last where `desc`; a name that ends there comes first, or last
/// where `desc`; rows of one name are equal.
pub proof fn law_row_order_by_name(a: RowView, b: RowView, desc: bool, i: int)
    requires
        0 <= i <= encode_utf8(a.name).len(),
        i <= encode_utf8(b.name).len(),
        encode_utf8(a.name).take(i) == encode_utf8(b.name).take(i),
    ensures
        i < encode_utf8(a.name).len() && i < encode_utf8(b.name).len() && encode_utf8(a.name)[i] != encode_utf8(
            b.name,
        )[i] ==> (row_order(a, b, SortKey::Name, desc) == Ordering::Less) == if desc {
            encode_utf8(a.name)[i] > encode_utf8(b.name)[i]
        } else {
            encode_utf8(a.name)[i] < encode_utf8(b.name)[i]
        },
        i == encode_utf8(a.name).len() && i < encode_utf8(b.name).len() ==> row_order(a, b, SortKey::Name, desc)
            == if desc {
            Ordering::Greater
        } else {
            Ordering::Less
        },
        (row_order(a, b, SortKey::Name, desc) == Ordering::Equal) == (a.name == b.name),
{
    law_text_order_bytes(a.name, b.name, i);
}

/// Rows listed by size come with their sizes in order: never rising where
/// `desc`, never falling otherwise.
pub proof fn law_sorted_by_size(s: Seq<RowView>, rows: Seq<RowView>, desc: bool)
    requires
        sorted_from(s, rows, SortKey::Size, desc),
    ensures
        forall|i: int, j: int|
            0 <= i < j < s.len() ==> if desc {
                #[trigger] s[i].size >= #[trigger] s[j].size
            } else {
                s[i].size <= s[j].size
            },
{
    assert forall|i: int, j: int| 0 <= i < j < s.len() implies if desc {
        #[trigger] s[i].size >= #[trigger] s[j].size
    } else {
        s[i].size <= s[j].size
    } by {
        assert(row_order(s[i], s[j], SortKey::Size, desc) != Ordering::Greater);
        law_row_order_by_size(s[i], s[j], desc);
    }
}

/// Rows listed by entry count come with their counts in order: never rising
/// where `desc`, never falling otherwise.
pub proof fn law_sorted_by_count(s: Seq<RowView>, rows: Seq<RowView>, desc: bool)
    requires
        sorted_from(s, rows, SortKey::Files, desc),
    ensures
        forall|i: int, j: int|
            0 <= i < j < s.len() ==> if desc {
                #[trigger] s[i].children.len() >= #[trigger] s[j].children.len()
            } else {
                s[i].children.len() <= s[j].children.len()
            },
{
    assert forall|i: int, j: int| 0 <= i < j < s.len() implies if desc {
        #[trigger] s[i].children.len() >= #[trigger] s[j].children.len()
    } else {
        s[i].children.len() <= s[j].children.len()
    } by {
        assert(row_order(s[i], s[j], SortKey::Files, desc) != Ordering::Greater);
    }
}

/// Whether `s` is in order by `row_order`.
pub open spec fn in_row_order(s: Seq<RowView>, key: SortKey, desc: bool) -> bool {
    forall|i: int, j: int|
        0 <= i < j < s.len() ==> row_order(#[trigger] s[i], #[trigger] s[j], key, desc) != Ordering::Greater
}

proof fn lemma_ties_prepend(s: Seq<RowView>, r: RowView, key: SortKey, desc: bool)
    requires
        s.len() > 0,
    ensures
        ties(s, r, key, desc) == (if row_order(s[0], r, key, desc) == Ordering::Equal {
            seq![s[0]]
        } else {
            Seq::empty()
        }) + ties(s.drop_first(), r, key, desc),
{
    assert(s =~= seq![s[0]] + s.drop_first());
    s.drop_first().lemma_filter_prepend(s[0], |x: RowView| row_order(x, r, key, desc) == Ordering::Equal);
}

#[verifier::rlimit(30)]
proof fn lemma_sorted_unique(s1: Seq<RowView>, s2: Seq<RowView>, key: SortKey, desc: bool)
    requires
        s1.to_multiset() == s2.to_multiset(),
        in_row_order(s1, key, desc),
        in_row_order(s2, key, desc),
        forall|r: RowView| #[trigger] ties(s1, r, key, desc) == ties(s2, r, key, desc),
    ensures
        s1 == s2,
    decreases s1.len(),
{
    broadcast use vstd::seq_lib::to_multiset_len, vstd::seq_lib::to_multiset_contains, vstd::seq_lib::to_multiset_remove;

    if s1.len() == 0 {
        assert(s2.to_multiset().len() == 0);
        assert(s1 =~= s2);
    } else {
        assert(s2.to_multiset().len() == s1.len());
        let x = s1[0];
        let y = s2[0];
        assert(s2.to_multiset().count(y) > 0);
        assert(s1.contains(y));
        let j = choose|j: int| 0 <= j < s1.len() && s1[j] == y;
        assert(s1.to_multiset().count(x) > 0);
        assert(s2.contains(x));
        let k = choose|k: int| 0 <= k < s2.len() && s2[k] == x;
        law_row_order(x, y, x, key, desc);
        law_row_order(y, y, y, key, desc);
        if j > 0 {
            assert(row_order(s1[0], s1[j], key, desc) != Ordering::Greater);
        }
        if k > 0 {
            assert(row_order(s2[0], s2[k], key, desc) != Ordering::Greater);
        }
        assert(row_order(x, y, key, desc) == Ordering::Equal);
        assert(row_order(y, x, key, desc) == Ordering::Equal);
        lemma_ties_prepend(s1, x, key, desc);
        lemma_ties_prepend(s2, x, key, desc);
        assert(ties(s1, x, key, desc)[0] == x);
        assert(ties(s2, x, key, desc)[0] == y);
        assert(x == y);
        let t1 = s1.drop_first();
        let t2 = s2.drop_first();
        assert forall|r: RowView| #[trigger] ties(t1, r, key, desc) == ties(t2, r, key, desc) by {
            lemma_ties_prepend(s1, r, key, desc);
            lemma_ties_prepend(s2, r, key, desc);
            assert(ties(s1, r, key, desc) == ties(s2, r, key, desc));
            if row_order(x, r, key, desc) == Ordering::Equal {
                assert(ties(t1, r, key, desc) =~= (seq![x] + ties(t1, r, key, desc)).drop_first());
                assert(ties(t2, r, key, desc) =~= (seq![x] + ties(t2, r, key, desc)).drop_first());
            } else {
                assert(ties(t1, r, key, desc) =~= Seq::<RowView>::empty() + ties(t1, r, key, desc));
                assert(ties(t2, r, key, desc) =~= Seq::<RowView>::empty() + ties(t2, r, key, desc));
            }
        }
        assert(s1.remove(0) =~= t1);
        assert(s2.remove(0) =~= t2);
        assert(t1.to_multiset() == t2.to_multiset());
        assert(in_row_order(t1, key, desc)) by {
            assert forall|i: int, m: int| 0 <= i < m < t1.len() implies row_order(#[trigger] t1[i], #[trigger] t1[m], key, desc) != Ordering::Greater by {
                assert(t1[i] == s1[i + 1] && t1[m] == s1[m + 1]);
            }
        }
        assert(in_row_order(t2, key, desc)) by {
            assert forall|i: int, m: int| 0 <= i < m < t2.len() implies row_order(#[trigger] t2[i], #[trigger] t2[m], key, desc) != Ordering::Greater by {
                assert(t2[i] == s2[i + 1] && t2[m] == s2[m + 1]);
            }
        }
        lemma_sorted_unique(t1, t2, key, desc);
        assert(s1 =~= seq![x] + t1);
        assert(s2 =~= seq![y] + t2);
    }
}

/// There is only one way to list `rows` in order with ties kept in place:
/// what `sorted_from` describes is a single sequence.
pub proof fn law_sorted_from_unique(s1: Seq<RowView>, s2: Seq<RowView>, rows: Seq<RowView>, key: SortKey, desc: bool)
    requires
        sorted_from(s1, rows, key, desc),
        sorted_from(s2, rows, key, desc),
    ensures
        s1 == s2,
{
    lemma_sorted_unique(s1, s2, key, desc);
}

/// The order of the rows `a` and `b` by `key`, turned around where `desc`.
pub fn row_compare(a: &Row, b: &Row, key: SortKey, desc: bool) -> (res: Ordering)
    ensures
        res == row_order(a@, b@, key, desc),
{
    let o = match key {
        SortKey::Name => text_compare(a.name.as_str(), b.name.as_str()),
        SortKey::Size => number_compare(a.size, b.size),
        SortKey::Files => {
            let (m, n) = (a.children.len(), b.children.len());
            if m < n {
                Ordering::Less
            } else if m == n {
                Ordering::Equal
            } else {
                Ordering::Greater
            }
        },
    };
    if desc {
        flip(o)
    } else {
        o
    }
}

/// Sorts `rows` with `slice::sort_by`, comparing by `row_compare`. The
/// contract claims what the documentation of `sort_by` gives: the rows are
/// rearranged, end up in order, and rows that compare equal keep their order.
#[verifier::external_body]
fn sort_rows(rows: &mut Vec<Row>, key: SortKey, desc: bool)
    ensures
        sorted_from(row_views(final(rows)@), row_views(old(rows)@), key, desc),
{
    rows.sort_by(|a, b| row_compare(a, b, key, desc));
}

/// The rows of the children of `id`, in the order the node lists them.
pub fn child_rows(arena: &Arena, id: NodeId) -> (rows: Vec<Row>)
    requires
        well_formed(arena@),
        id < arena@.len(),
    ensures
        row_views(rows@) == children_rows(arena@, id),
{
    let node = arena.get(id);
    let mut rows: Vec<Row> = Vec::new();
    let mut k: usize = 0;
    while k < node.children.len()
        invariant
            well_formed(arena@),
            id < arena@.len(),
            node@ == arena@[id as int],
            0 <= k <= node.children.len(),
            rows@.len() == k,
            row_views(rows@) == children_rows(arena@, id).take(k as int),
        decreases node.children.len() - k,
    {
        let c = node.children[k];
        proof {
            assert(arena@[id as int].children[k as int] == c);
        }
        let child = arena.get(c);
        let ghost prev = rows@;
        rows.push(
            Row {
                id: c,
                name: child.name.clone(),
                size: child.size,
                is_dir: child.is_dir,
                children: child.children.clone(),
            },
        );
        proof {
            assert(rows@.last()@.children =~= child.children@);
            assert(rows@.last()@ == row_of(arena@, c));
            assert forall|i: int| 0 <= i < k implies #[trigger] row_views(rows@)[i] == row_views(prev)[i] by {
                assert(rows@[i] == prev[i]);
            }
            assert(row_views(rows@) =~= children_rows(arena@, id).take(k + 1));
        }
        k = k + 1;
    }
    proof {
        assert(children_rows(arena@, id).take(k as int) =~= children_rows(arena@, id));
    }
    rows
}

/// The rows of the children of `id` for the file list, ordered by the key of
/// column `sort_col` (name, size, share of the parent, entry count),
/// descending where `sort_desc`; rows that compare equal keep the node's
/// order.
pub fn list_rows(arena: &Arena, id: NodeId, sort_col: usize, sort_desc: bool) -> (rows: Vec<Row>)
    requires
        well_formed(arena@),
        id < arena@.len(),
    ensures
        sorted_from(row_views(rows@), children_rows(arena@, id), column_key(sort_col), sort_desc),
{
    let key = if sort_col == 0 {
        SortKey::Name
    } else if sort_col == 3 {
        SortKey::Files
    } else {
        SortKey::Size
    };
    let mut rows = child_rows(arena, id);
    sort_rows(&mut rows, key, sort_desc);
    rows
}

/// The rows of the children of `id` from the largest to the smallest, rows
/// of equal size keeping the node's order: what an expanded directory and
/// a tooltip show.
pub fn rows_by_size(arena: &Arena, id: NodeId) -> (rows: Vec<Row>)
    requires
        well_formed(arena@),
        id < arena@.len(),
    ensures
        sorted_from(row_views(rows@), children_rows(arena@, id), SortKey::Size, true),
{
    let mut rows = child_rows(arena, id);
    sort_rows(&mut rows, SortKey::Size, true);
    rows
}

} // verus!
