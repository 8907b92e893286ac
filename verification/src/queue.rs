//! The FIFO queues of the `queues` crate, as the playback path uses them.
use vstd::prelude::*;
use queues::{IsQueue, Queue};

verus! {

#[verifier::external_type_specification]
#[verifier::external_body]
#[verifier::reject_recursive_types(T)]
pub struct ExQueue<T: Clone>(Queue<T>);

/// The items of a queue of float sample bit patterns, oldest first.
pub uninterp spec fn f32_items(q: Queue<u32>) -> Seq<u32>;

/// The items of a queue of `i16` samples, oldest first.
pub uninterp spec fn i16_items(q: Queue<i16>) -> Seq<i16>;

/// The items of a queue of `u16` samples, oldest first.
pub uninterp spec fn u16_items(q: Queue<u16>) -> Seq<u16>;

/// `Queue::new`: an empty queue.
#[verifier::external_body]
pub(crate) fn f32_queue_new() -> (q: Queue<u32>)
    ensures
        f32_items(q) == Seq::<u32>::empty(),
{
    Queue::new()
}

/// `Queue::new`: an empty queue.
#[verifier::external_body]
pub(crate) fn i16_queue_new() -> (q: Queue<i16>)
    ensures
        i16_items(q) == Seq::<i16>::empty(),
{
    Queue::new()
}

/// `Queue::new`: an empty queue.
#[verifier::external_body]
pub(crate) fn u16_queue_new() -> (q: Queue<u16>)
    ensures
        u16_items(q) == Seq::<u16>::empty(),
{
    Queue::new()
}

/// `IsQueue::add` on a `Queue`: the item goes to the back; the call always
/// succeeds, so its `Ok(None)` result is dropped.
#[verifier::external_body]
pub(crate) fn f32_queue_add(q: &mut Queue<u32>, v: u32)
    ensures
        f32_items(*final(q)) == f32_items(*old(q)).push(v),
{
    let _ = q.add(v);
}

/// `IsQueue::add` on a `Queue`: the item goes to the back; the call always
/// succeeds, so its `Ok(None)` result is dropped.
#[verifier::external_body]
pub(crate) fn i16_queue_add(q: &mut Queue<i16>, v: i16)
    ensures
        i16_items(*final(q)) == i16_items(*old(q)).push(v),
{
    let _ = q.add(v);
}

/// `IsQueue::add` on a `Queue`: the item goes to the back; the call always
/// succeeds, so its `Ok(None)` result is dropped.
#[verifier::external_body]
pub(crate) fn u16_queue_add(q: &mut Queue<u16>, v: u16)
    ensures
        u16_items(*final(q)) == u16_items(*old(q)).push(v),
{
    let _ = q.add(v);
}

/// `IsQueue::remove` on a `Queue`: the oldest item leaves and is returned;
/// on an empty queue the call fails (here `None`) and changes nothing.
#[verifier::external_body]
pub(crate) fn f32_queue_remove(q: &mut Queue<u32>) -> (r: Option<u32>)
    ensures
        f32_items(*old(q)).len() > 0 ==> r == Some(f32_items(*old(q))[0]) && f32_items(*final(q))
            == f32_items(*old(q)).drop_first(),
        f32_items(*old(q)).len() == 0 ==> r is None && f32_items(*final(q)) == f32_items(*old(q)),
{
    q.remove().ok()
}

/// `IsQueue::remove` on a `Queue`: the oldest item leaves and is returned;
/// on an empty queue the call fails (here `None`) and changes nothing.
#[verifier::external_body]
pub(crate) fn i16_queue_remove(q: &mut Queue<i16>) -> (r: Option<i16>)
    ensures
        i16_items(*old(q)).len() > 0 ==> r == Some(i16_items(*old(q))[0]) && i16_items(*final(q))
            == i16_items(*old(q)).drop_first(),
        i16_items(*old(q)).len() == 0 ==> r is None && i16_items(*final(q)) == i16_items(*old(q)),
{
    q.remove().ok()
}

/// `IsQueue::remove` on a `Queue`: the oldest item leaves and is returned;
/// on an empty queue the call fails (here `None`) and changes nothing.
#[verifier::external_body]
pub(crate) fn u16_queue_remove(q: &mut Queue<u16>) -> (r: Option<u16>)
    ensures
        u16_items(*old(q)).len() > 0 ==> r == Some(u16_items(*old(q))[0]) && u16_items(*final(q))
            == u16_items(*old(q)).drop_first(),
        u16_items(*old(q)).len() == 0 ==> r is None && u16_items(*final(q)) == u16_items(*old(q)),
{
    q.remove().ok()
}

/// `IsQueue::size` on a `Queue`: the number of items.
#[verifier::external_body]
pub(crate) fn f32_queue_size(q: &Queue<u32>) -> (r: usize)
    ensures
        r == f32_items(*q).len(),
{
    q.size()
}

/// `IsQueue::size` on a `Queue`: the number of items.
#[verifier::external_body]
pub(crate) fn i16_queue_size(q: &Queue<i16>) -> (r: usize)
    ensures
        r == i16_items(*q).len(),
{
    q.size()
}

/// `IsQueue::size` on a `Queue`: the number of items.
#[verifier::external_body]
pub(crate) fn u16_queue_size(q: &Queue<u16>) -> (r: usize)
    ensures
        r == u16_items(*q).len(),
{
    q.size()
}

} // verus!
