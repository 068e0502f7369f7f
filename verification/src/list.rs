//! The linked list that holds a deme's individuals.
//!
//! The list comes from the `linked_list` crate. Verus cannot look inside it,
//! so this file names what a list holds and states, method by method, what
//! the crate's source shows each call to do to those contents. Nothing here is
//! proved; everything else in the library is proved against these statements.

use vstd::prelude::*;
use linked_list::LinkedList;
use crate::entry::DemeEntry;

verus! {

/// `linked_list::LinkedList`, declared so that it can stand in fields and
/// signatures. Verus sees nothing inside a value of it.
#[verifier::external_type_specification]
#[verifier::external_body]
#[verifier::reject_recursive_types(T)]
pub struct ExLinkedList<T>(linked_list::LinkedList<T>);

/// The individuals a list holds, front to back.
pub uninterp spec fn list_entries(list: LinkedList<DemeEntry>) -> Seq<DemeEntry>;

/// `LinkedList::new`: a list that holds nothing.
#[verifier::external_body]
pub(crate) fn list_new() -> (list: LinkedList<DemeEntry>)
    ensures
        list_entries(list) == Seq::<DemeEntry>::empty(),
{
    LinkedList::new()
}

/// `LinkedList::len`: the number of individuals held.
#[verifier::external_body]
pub(crate) fn list_len(list: &LinkedList<DemeEntry>) -> (n: usize)
    ensures
        n == list_entries(*list).len(),
{
    list.len()
}

/// `LinkedList::push_back`: the list gains `entry` behind its last element.
#[verifier::external_body]
pub(crate) fn list_push_back(list: &mut LinkedList<DemeEntry>, entry: DemeEntry)
    ensures
        list_entries(*final(list)) == list_entries(*old(list)).push(entry),
{
    list.push_back(entry)
}

/// `LinkedList::insert`: `entry` takes position `index` and what stood at or
/// behind it moves one place back. The call panics past the end of the list,
/// which `requires` leaves out.
#[verifier::external_body]
pub(crate) fn list_insert(list: &mut LinkedList<DemeEntry>, index: usize, entry: DemeEntry)
    requires
        index <= list_entries(*old(list)).len(),
    ensures
        list_entries(*final(list)) == list_entries(*old(list)).insert(index as int, entry),
{
    list.insert(index, entry)
}

/// `LinkedList::remove`: inside the list, the element at `index` leaves and
/// is returned; at or past the end nothing changes and `None` comes back.
#[verifier::external_body]
pub(crate) fn list_remove(list: &mut LinkedList<DemeEntry>, index: usize) -> (taken: Option<
    DemeEntry,
>)
    ensures
        index < list_entries(*old(list)).len() ==> {
            &&& taken == Some(list_entries(*old(list))[index as int])
            &&& list_entries(*final(list)) == list_entries(*old(list)).remove(index as int)
        },
        index >= list_entries(*old(list)).len() ==> {
            &&& taken.is_none()
            &&& list_entries(*final(list)) == list_entries(*old(list))
        },
{
    list.remove(index)
}

/// `LinkedList::split_at`: inside the list, the first `index` elements stay
/// and the rest is returned in order; at or past the end the list keeps
/// everything and an empty list is returned.
#[verifier::external_body]
pub(crate) fn list_split_at(list: &mut LinkedList<DemeEntry>, index: usize) -> (tail: LinkedList<
    DemeEntry,
>)
    ensures
        index < list_entries(*old(list)).len() ==> {
            &&& list_entries(*final(list)) == list_entries(*old(list)).take(index as int)
            &&& list_entries(tail) == list_entries(*old(list)).skip(index as int)
        },
        index >= list_entries(*old(list)).len() ==> {
            &&& list_entries(*final(list)) == list_entries(*old(list))
            &&& list_entries(tail) == Seq::<DemeEntry>::empty()
        },
{
    list.split_at(index)
}

/// `LinkedList::iter`: the individuals held, front to back, copied out.
#[verifier::external_body]
pub(crate) fn list_to_vec(list: &LinkedList<DemeEntry>) -> (entries: Vec<DemeEntry>)
    ensures
        entries@ == list_entries(*list),
{
    list.iter().cloned().collect()
}

} // verus!
