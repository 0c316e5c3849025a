//! The order of paths in the scene tree: an entry comes before the items
//! that follow it in a depth-first walk.

use std::cmp::Ordering;

use vstd::prelude::*;

verus! {

/// Compares two paths segment by segment; when one is a prefix of the
/// other, the shorter comes first.
pub open spec fn path_order(entry: Seq<usize>, item: Seq<usize>) -> Ordering
    decreases entry.len(),
{
    if entry.len() == 0 || item.len() == 0 {
        if entry.len() < item.len() {
            Ordering::Less
        } else if entry.len() == item.len() {
            Ordering::Equal
        } else {
            Ordering::Greater
        }
    } else if entry[0] < item[0] {
        Ordering::Less
    } else if entry[0] > item[0] {
        Ordering::Greater
    } else {
        path_order(entry.drop_first(), item.drop_first())
    }
}

/// The segments of a path from index `i` on.
pub open spec fn tail_from(s: Seq<usize>, i: usize) -> Seq<usize> {
    s.subrange(i as int, s.len() as int)
}

/// The tails from `i` and from `i + 1` are one segment apart.
proof fn lemma_tail_step(s: Seq<usize>, i: usize)
    requires
        i < s.len(),
        i < usize::MAX,
    ensures
        tail_from(s, i).len() > 0,
        tail_from(s, i)[0] == s[i as int],
        tail_from(s, i).drop_first() == tail_from(s, (i + 1) as usize),
{
    assert(tail_from(s, i).drop_first() =~= tail_from(s, (i + 1) as usize));
}

/// The whole path is its tail from 0.
proof fn lemma_tail_whole(s: Seq<usize>)
    ensures
        tail_from(s, 0) == s,
{
    assert(tail_from(s, 0) =~= s);
}

/// Compares the path of a tree entry with the path of a scene item (see
/// `path_order`).
pub fn compare_tree_entry_path(entry_path: &Vec<usize>, item_path: &Vec<usize>) -> (r: Ordering)
    ensures
        r == path_order(entry_path@, item_path@),
{
    let mut i: usize = 0;
    proof {
        lemma_tail_whole(entry_path@);
        lemma_tail_whole(item_path@);
    }
    while i < entry_path.len() && i < item_path.len()
        invariant
            0 <= i <= entry_path@.len(),
            i <= item_path@.len(),
            path_order(entry_path@, item_path@) == path_order(
                tail_from(entry_path@, i),
                tail_from(item_path@, i),
            ),
        decreases entry_path@.len() - i,
    {
        let a = entry_path[i];
        let b = item_path[i];
        proof {
            lemma_tail_step(entry_path@, i);
            lemma_tail_step(item_path@, i);
        }
        if a < b {
            return Ordering::Less;
        }
        if a > b {
            return Ordering::Greater;
        }
        i = i + 1;
    }
    if entry_path.len() < item_path.len() {
        Ordering::Less
    } else if entry_path.len() == item_path.len() {
        Ordering::Equal
    } else {
        Ordering::Greater
    }
}

/// An index as an integer.
pub open spec fn index_of(i: usize) -> int {
    i as int
}

/// A scene item as far as ordering goes: its path and its stable sort key.
#[derive(Clone, Debug)]
pub struct OrderedItem {
    pub path: Vec<usize>,
    pub stable_sort_key: u64,
}

/// The sort key of a projected subtree: that of the first item (in scene
/// order) not before the subtree's path, or `u64::MAX` when there is none.
pub fn projected_sort_key(items: &Vec<OrderedItem>, projected_path: &Vec<usize>) -> (r: u64)
    ensures
        r == (if exists|i: int| 0 <= i < items@.len() && path_order(projected_path@, #[trigger] items@[i].path@) != Ordering::Greater {
            items@[choose|i: int| 0 <= i < items@.len() && path_order(projected_path@, #[trigger] items@[i].path@) != Ordering::Greater && forall|j: int| 0 <= j < i ==> path_order(projected_path@, #[trigger] items@[j].path@) == Ordering::Greater].stable_sort_key
        } else {
            u64::MAX
        }),
{
    let mut i: usize = 0;
    while i < items.len()
        invariant
            0 <= i <= items@.len(),
            forall|j: int| 0 <= j < i ==> path_order(projected_path@, #[trigger] items@[j].path@) == Ordering::Greater,
        decreases items@.len() - i,
    {
        let order = compare_tree_entry_path(projected_path, &items[i].path);
        match order {
            Ordering::Greater => {},
            _ => {
                proof {
                    let k = index_of(i);
                    assert(path_order(projected_path@, items@[k].path@) != Ordering::Greater);
                    let c = choose|c: int| 0 <= c < items@.len() && path_order(projected_path@, #[trigger] items@[c].path@) != Ordering::Greater && forall|j: int| 0 <= j < c ==> path_order(projected_path@, #[trigger] items@[j].path@) == Ordering::Greater;
                    if c < k {
                        assert(path_order(projected_path@, items@[c].path@) == Ordering::Greater);
                    } else if c > k {
                        assert(path_order(projected_path@, items@[k].path@) == Ordering::Greater);
                    }
                }
                return items[i].stable_sort_key;
            },
        }
        i = i + 1;
    }
    u64::MAX
}

} // verus!
