use vstd::prelude::*;
use std::marker::PhantomData;
use crate::util::misc::shrink_vec;

verus! {

/// A reference to a value in a [`BumpAllocator`]: its offset plus one, never zero.
pub struct Handle<T> {
    key: u32,
    pd: PhantomData<T>,
}

impl<T> Clone for Handle<T> {
    fn clone(&self) -> (r: Self)
        ensures
            r.spec_key() == self.spec_key(),
    {
        Handle { key: self.key, pd: PhantomData }
    }
}

impl<T> Copy for Handle<T> {

}

impl<T> Handle<T> {
    pub closed spec fn spec_key(&self) -> u32 {
        self.key
    }

    pub fn key(&self) -> (r: u32)
        ensures
            r == self.spec_key(),
    {
        self.key
    }
}

/// An arena of a fixed capacity, given when it is made. Values are moved in and never move or
/// leave again; each is reached through the [`Handle`] returned when it was stored.
pub struct BumpAllocator<T> {
    mem: Vec<T>,
    capacity: usize,
}

impl<T> View for BumpAllocator<T> {
    type V = Seq<T>;

    /// The stored values, by offset.
    closed spec fn view(&self) -> Seq<T> {
        self.mem@
    }
}

impl<T> BumpAllocator<T> {
    pub closed spec fn capacity(&self) -> nat {
        self.capacity as nat
    }

    /// The handle names a stored value.
    pub open spec fn holds(&self, handle: Handle<T>) -> bool {
        1 <= handle.spec_key() <= self@.len()
    }

    /// The value a handle names.
    pub open spec fn at(&self, handle: Handle<T>) -> T {
        self@[handle.spec_key() - 1]
    }

    /// An arena with room for `size` values.
    pub fn new(size: usize) -> (r: Self)
        ensures
            r@ == Seq::<T>::empty(),
            r.capacity() == size,
    {
        BumpAllocator { mem: Vec::with_capacity(size), capacity: size }
    }

    /// Moves `value` into the arena and returns its handle. The arena must have room.
    pub fn bump(&mut self, value: T) -> (h: Handle<T>)
        requires
            old(self)@.len() < old(self).capacity(),
            old(self)@.len() < u32::MAX,
        ensures
            final(self)@ == old(self)@.push(value),
            final(self).capacity() == old(self).capacity(),
            h.spec_key() == old(self)@.len() + 1,
    {
        let key = (self.mem.len() + 1) as u32;
        self.mem.push(value);
        Handle { key, pd: PhantomData }
    }

    pub fn get(&self, handle: Handle<T>) -> (r: &T)
        requires
            self.holds(handle),
        ensures
            *r == self.at(handle),
    {
        &self.mem[(handle.key - 1) as usize]
    }

    pub fn get_mut(&mut self, handle: Handle<T>) -> (r: &mut T)
        requires
            old(self).holds(handle),
        ensures
            *r == old(self).at(handle),
            final(self)@ == old(self)@.update(handle.spec_key() - 1, *final(r)),
            final(self).capacity() == old(self).capacity(),
    {
        let i = (handle.key - 1) as usize;
        &mut self.mem[i]
    }

    /// Drops the unused room once writing is done. Every handle keeps its value.
    pub fn shrink_to_fit(&mut self)
        ensures
            final(self)@ == old(self)@,
            final(self).capacity() == old(self)@.len(),
    {
        shrink_vec(&mut self.mem);
        self.capacity = self.mem.len();
    }
}

/// After any sequence of stores and a shrink, each handle still names the value stored with it.
pub proof fn lemma_handles_stable<T>(
    before: Seq<T>,
    values: Seq<T>,
    after: &BumpAllocator<T>,
    handles: Seq<Handle<T>>,
)
    requires
        handles.len() == values.len(),
        after@ == before + values,
        forall|i: int| 0 <= i < handles.len() ==> #[trigger] handles[i].spec_key() == before.len() + i + 1,
    ensures
        forall|i: int| 0 <= i < handles.len() ==> after.holds(#[trigger] handles[i]) && after.at(handles[i]) == values[i],
{
}

/// A node of a singly linked list whose nodes live in an arena.
pub struct LLNode<T> {
    pub value: T,
    pub next: Option<Handle<LLNode<T>>>,
}

/// The key a link holds, zero for none.
pub open spec fn link_key<T>(h: Option<Handle<LLNode<T>>>) -> u32 {
    match h {
        Some(h) => h.spec_key(),
        None => 0,
    }
}

/// `keys` are the handles of a list that starts at `head`, in order: each node links to the
/// next and the last links nowhere.
pub open spec fn ll_linked<T>(
    mem: Seq<LLNode<T>>,
    head: Option<Handle<LLNode<T>>>,
    keys: Seq<u32>,
) -> bool {
    &&& link_key(head) == if keys.len() == 0 {
        0
    } else {
        keys[0]
    }
    &&& forall|i: int| 0 <= i < keys.len() ==> 1 <= #[trigger] keys[i] <= mem.len()
    &&& forall|i: int| 0 <= i < keys.len() - 1 ==> link_key(#[trigger] mem[keys[i] - 1].next) == keys[i + 1]
    &&& keys.len() > 0 ==> mem[keys.last() - 1].next is None
}

/// A list stays linked when the arena only grows and its nodes stay as they were.
pub proof fn lemma_ll_frame<T>(
    m1: Seq<LLNode<T>>,
    m2: Seq<LLNode<T>>,
    head: Option<Handle<LLNode<T>>>,
    keys: Seq<u32>,
)
    requires
        ll_linked(m1, head, keys),
        m1.len() <= m2.len(),
        forall|k: int| 0 <= k < m1.len() ==> #[trigger] m2[k] == m1[k],
    ensures
        ll_linked(m2, head, keys),
{
    assert forall|i: int| 0 <= i < keys.len() - 1 implies link_key(#[trigger] m2[keys[i] - 1].next)
        == keys[i + 1] by {
        assert(1 <= keys[i] <= m1.len());
        assert(m2[keys[i] - 1] == m1[keys[i] - 1]);
    }
    if keys.len() > 0 {
        assert(1 <= keys[keys.len() - 1] <= m1.len());
    }
}

/// The values of the list with the given handles.
pub open spec fn ll_values<T>(mem: Seq<LLNode<T>>, keys: Seq<u32>) -> Seq<T> {
    keys.map_values(|k: u32| mem[k - 1].value)
}

/// Appends `value` to the list whose first node is `*head` and last node is `*tail`.
pub fn extend_ll<T>(
    mem: &mut BumpAllocator<LLNode<T>>,
    head: &mut Option<Handle<LLNode<T>>>,
    tail: &mut Option<Handle<LLNode<T>>>,
    value: T,
    Ghost(keys): Ghost<Seq<u32>>,
)
    requires
        old(mem)@.len() < old(mem).capacity(),
        old(mem)@.len() < u32::MAX,
        ll_linked(old(mem)@, *old(head), keys),
        (*old(tail) is Some) <==> keys.len() > 0,
        link_key(*old(tail)) == if keys.len() == 0 {
            0
        } else {
            keys.last()
        },
    ensures
        final(mem)@.len() == old(mem)@.len() + 1,
        final(mem).capacity() == old(mem).capacity(),
        ll_linked(final(mem)@, *final(head), keys.push((old(mem)@.len() + 1) as u32)),
        link_key(*final(tail)) == old(mem)@.len() + 1,
        ll_values(final(mem)@, keys.push((old(mem)@.len() + 1) as u32)) == ll_values(
            old(mem)@,
            keys,
        ).push(value),
        forall|k: int| 0 <= k < old(mem)@.len() ==> #[trigger] final(mem)@[k].value == old(
            mem,
        )@[k].value,
        forall|k: int|
            0 <= k < old(mem)@.len() && k != link_key(*old(tail)) - 1 ==> #[trigger] final(mem)@[k]
                == old(mem)@[k],
        final(mem)@[old(mem)@.len() as int].value == value,
{
    let ghost old_mem = mem@;
    let handle = mem.bump(LLNode { value, next: None });
    let ghost pushed = mem@;
    match *tail {
        Some(t) => {
            proof {
                assert(keys.len() > 0);
                assert(1 <= keys[keys.len() - 1] <= old_mem.len());
            }
            let node = mem.get_mut(t);
            node.next = Some(handle);
            proof {
                assert(forall|k: int| 0 <= k < pushed.len() ==> #[trigger] mem@[k].value == pushed[k].value);
            }
        },
        None => {
            *head = Some(handle);
        },
    }
    *tail = Some(handle);
    proof {
        let nk = keys.push((old_mem.len() + 1) as u32);
        let m = mem@;
        assert(forall|k: int| 0 <= k < old_mem.len() ==> #[trigger] m[k].value == old_mem[k].value);
        assert(m[old_mem.len() as int].value == value);
        assert(ll_values(m, nk) =~= ll_values(old_mem, keys).push(value));
    }
}

} // verus!
