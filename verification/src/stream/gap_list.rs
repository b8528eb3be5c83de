//! The list of byte ranges that have not been received yet.
use fast_list::LinkedList;
use fast_list::LinkedListIndex;
use vstd::prelude::*;

verus! {

/// A half-open byte interval `[start, end)`.
#[derive(Debug, Clone, Copy)]
pub struct ByteInterval {
    pub start: u64,
    pub end: u64,
}

/// A doubly linked list whose nodes are found again by a handle.
#[verifier::external_type_specification]
#[verifier::external_body]
#[verifier::reject_recursive_types(T)]
pub struct ExLinkedList<T>(LinkedList<T>);

/// The handle of a node of a [`LinkedList`].
#[verifier::external_type_specification]
#[verifier::external_body]
pub struct ExLinkedListIndex(LinkedListIndex);

/// The nodes of a list from front to back, each with its handle.
pub uninterp spec fn gap_nodes(list: LinkedList<ByteInterval>) -> Seq<
    (LinkedListIndex, ByteInterval),
>;

/// The handle of the node behind the one at position `k`.
pub open spec fn next_handle(nodes: Seq<(LinkedListIndex, ByteInterval)>, k: int) -> Option<
    LinkedListIndex,
> {
    if k + 1 < nodes.len() {
        Some(nodes[k + 1].0)
    } else {
        None
    }
}

/// The handle of the node in front of the one at position `k`.
pub open spec fn prev_handle(nodes: Seq<(LinkedListIndex, ByteInterval)>, k: int) -> Option<
    LinkedListIndex,
> {
    if k > 0 {
        Some(nodes[k - 1].0)
    } else {
        None
    }
}

/// `LinkedList::new` gives a list without nodes.
#[verifier::external_body]
pub(crate) fn list_new() -> (list: LinkedList<ByteInterval>)
    ensures
        gap_nodes(list).len() == 0,
{
    LinkedList::new()
}

/// `LinkedList::push_back` adds a node at the back under a handle that no
/// other node has. It panics when the list's slot map is full.
#[verifier::external_body]
pub(crate) fn list_push_back(
    list: &mut LinkedList<ByteInterval>,
    value: ByteInterval,
) -> (handle: LinkedListIndex)
    requires
        gap_nodes(*old(list)).len() < 0xffff_fffe,
    ensures
        gap_nodes(*final(list)) == gap_nodes(*old(list)).push((handle, value)),
        forall|k: int|
            0 <= k < gap_nodes(*old(list)).len() ==> #[trigger] gap_nodes(*old(list))[k].0
                != handle,
{
    list.push_back(value)
}

/// `LinkedList::head` gives the node at the front; here, its handle.
#[verifier::external_body]
pub(crate) fn list_head(list: &LinkedList<ByteInterval>) -> (handle: Option<LinkedListIndex>)
    ensures
        handle == (if gap_nodes(*list).len() > 0 {
            Some(gap_nodes(*list)[0].0)
        } else {
            None
        }),
{
    list.head().map(|item| item.index)
}

/// `LinkedList::get` gives the node with a handle; here, its value and the
/// handles of the node in front of it and of the node behind it.
#[verifier::external_body]
pub(crate) fn list_get(list: &LinkedList<ByteInterval>, handle: LinkedListIndex) -> (node: Option<
    (ByteInterval, Option<LinkedListIndex>, Option<LinkedListIndex>),
>)
    ensures
        forall|k: int|
            0 <= k < gap_nodes(*list).len() && (#[trigger] gap_nodes(*list)[k]).0 == handle
                ==> node == Some(
                (
                    gap_nodes(*list)[k].1,
                    prev_handle(gap_nodes(*list), k),
                    next_handle(gap_nodes(*list), k),
                ),
            ),
        (forall|k: int|
            0 <= k < gap_nodes(*list).len() ==> (#[trigger] gap_nodes(*list)[k]).0 != handle)
            ==> node is None,
{
    list.get(handle).map(|item| (item.value, item.prev_index, item.next_index))
}

/// `LinkedList::get_mut` gives the node with a handle for writing; here, its
/// value. The handle has to be one of the list's.
#[verifier::external_body]
pub(crate) fn list_get_mut(
    list: &mut LinkedList<ByteInterval>,
    handle: LinkedListIndex,
) -> (value: &mut ByteInterval)
    requires
        exists|k: int|
            0 <= k < gap_nodes(*old(list)).len() && (#[trigger] gap_nodes(*old(list))[k]).0
                == handle,
    ensures
        forall|k: int|
            0 <= k < gap_nodes(*old(list)).len() && (#[trigger] gap_nodes(*old(list))[k]).0
                == handle ==> *value == gap_nodes(*old(list))[k].1 && gap_nodes(*final(list))
                == gap_nodes(*old(list)).update(k, (handle, *final(value))),
{
    &mut list.get_mut(handle).unwrap().value
}

/// `LinkedList::remove` takes the node with a handle out; without such a node
/// the list stays as it is.
#[verifier::external_body]
pub(crate) fn list_remove(list: &mut LinkedList<ByteInterval>, handle: LinkedListIndex)
    ensures
        forall|k: int|
            0 <= k < gap_nodes(*old(list)).len() && (#[trigger] gap_nodes(*old(list))[k]).0
                == handle ==> gap_nodes(*final(list)) == gap_nodes(*old(list)).remove(k),
        (forall|k: int|
            0 <= k < gap_nodes(*old(list)).len() ==> (#[trigger] gap_nodes(*old(list))[k]).0
                != handle) ==> gap_nodes(*final(list)) == gap_nodes(*old(list)),
{
    let _ = list.remove(handle);
}

/// `LinkedList::insert_after` puts a node behind the one with a handle, under
/// a handle that no other node has. It panics when there is no such node or
/// the list's slot map is full.
#[verifier::external_body]
pub(crate) fn list_insert_after(
    list: &mut LinkedList<ByteInterval>,
    handle: LinkedListIndex,
    value: ByteInterval,
) -> (added: LinkedListIndex)
    requires
        exists|k: int|
            0 <= k < gap_nodes(*old(list)).len() && (#[trigger] gap_nodes(*old(list))[k]).0
                == handle,
        gap_nodes(*old(list)).len() < 0xffff_fffe,
    ensures
        forall|k: int|
            0 <= k < gap_nodes(*old(list)).len() && (#[trigger] gap_nodes(*old(list))[k]).0
                == handle ==> gap_nodes(*final(list)) == gap_nodes(*old(list)).insert(
                k + 1,
                (added, value),
            ),
        forall|k: int|
            0 <= k < gap_nodes(*old(list)).len() ==> #[trigger] gap_nodes(*old(list))[k].0
                != added,
{
    list.insert_after(handle, value)
}

/// `LinkedList::len` counts the nodes.
#[verifier::external_body]
pub(crate) fn list_len(list: &LinkedList<ByteInterval>) -> (n: usize)
    ensures
        n == gap_nodes(*list).len(),
{
    list.len()
}

/// `<LinkedListIndex as PartialEq>::eq` tells whether two handles are the same.
#[verifier::external_body]
pub(crate) fn same_handle(a: LinkedListIndex, b: LinkedListIndex) -> (same: bool)
    ensures
        same == (a == b),
{
    a == b
}

} // verus!
