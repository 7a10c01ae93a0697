use std::collections::HashSet;
use vstd::prelude::*;

verus! {

broadcast use vstd::std_specs::hash::group_hash_axioms;

/// The id after `id` in allocation order: ids run 1, 2, ..., `u32::MAX`, 1, ...
pub open spec fn succ(id: u32) -> u32 {
    if id == u32::MAX {
        1
    } else {
        (id + 1) as u32
    }
}

/// How many steps of `succ` lead from `from` to `id`, both nonzero.
pub open spec fn dist(from: u32, id: u32) -> int {
    if id >= from {
        id - from
    } else {
        id + u32::MAX - from
    }
}

/// What an allocation does: `r` is the first id at or after the cursor that
/// was not active, it becomes active, and the cursor moves past it.
pub open spec fn allocated(old_cursor: u32, old_active: Set<u32>, new_cursor: u32, new_active: Set<u32>, r: u32) -> bool {
    &&& r != 0
    &&& !old_active.contains(r)
    &&& forall|x: u32| x != 0 && dist(old_cursor, x) < dist(old_cursor, r) ==> #[trigger] old_active.contains(x)
    &&& new_active == old_active.insert(r)
    &&& new_cursor == succ(r)
}

/// A pool of recyclable nonzero `u32` ids: a rolling cursor and the set of
/// ids in use.
pub struct IdPool {
    next: u32,
    active: HashSet<u32>,
}

impl IdPool {
    /// The ids in use.
    pub closed spec fn active(&self) -> Set<u32> {
        self.active@
    }

    /// Where the next search starts.
    pub closed spec fn cursor(&self) -> u32 {
        self.next
    }

    pub open spec fn wf(&self) -> bool {
        &&& self.cursor() != 0
        &&& !self.active().contains(0)
        &&& self.active().finite()
    }

    /// An empty pool whose first id is 1.
    pub fn new() -> (r: IdPool)
        ensures
            r.wf(),
            r.active() == Set::<u32>::empty(),
            r.cursor() == 1,
    {
        IdPool { next: 1, active: HashSet::new() }
    }

    /// Whether every nonzero id is in use, so that nothing can be allocated.
    pub fn is_full(&self) -> (r: bool)
        ensures
            r == (self.active().len() >= u32::MAX),
    {
        self.active.len() >= 4294967295usize
    }

    /// Whether `id` is in use.
    pub fn is_active(&self, id: u32) -> (r: bool)
        ensures
            r == self.active().contains(id),
    {
        self.active.contains(&id)
    }

    /// Hands out the first id at or after the cursor that is not in use,
    /// skipping 0, and marks it in use.
    pub fn allocate(&mut self) -> (r: u32)
        requires
            old(self).wf(),
            old(self).active().len() < u32::MAX,
        ensures
            final(self).wf(),
            allocated(old(self).cursor(), old(self).active(), final(self).cursor(), final(self).active(), r),
    {
        let ghost start = self.next;
        let ghost visited = Set::<u32>::empty();
        let mut id: u32 = self.next;
        while self.active.contains(&id)
            invariant
                self.cursor() == old(self).cursor(),
                self.active() == old(self).active(),
                self.wf(),
                self.active().len() < u32::MAX,
                id != 0,
                dist(start, id) == visited.len(),
                start == self.cursor(),
                visited.finite(),
                visited.subset_of(self.active()),
                forall|x: u32| #[trigger] visited.contains(x) <==> (x != 0 && dist(start, x) < dist(start, id)),
            decreases self.active().len() - visited.len(),
        {
            proof {
                vstd::set_lib::lemma_len_subset(visited, self.active());
                assert(!visited.contains(id));
                visited = visited.insert(id);
                vstd::set_lib::lemma_len_subset(visited, self.active());
            }
            id = if id == u32::MAX {
                1
            } else {
                id + 1
            };
        }
        self.active.insert(id);
        self.next = if id == u32::MAX {
            1
        } else {
            id + 1
        };
        id
    }

    /// Returns `id` to the pool.
    pub fn free(&mut self, id: u32)
        requires
            old(self).wf(),
        ensures
            final(self).wf(),
            final(self).active() == old(self).active().remove(id),
            final(self).cursor() == old(self).cursor(),
    {
        self.active.remove(&id);
    }
}

/// A freed id is never skipped: the next allocation either hands out `x`
/// or leaves it free with fewer steps of the cursor to go, so repeated
/// allocations reach it within `u32::MAX` calls.
pub proof fn lemma_free_id_reached(old_cursor: u32, old_active: Set<u32>, new_cursor: u32, new_active: Set<u32>, r: u32, x: u32)
    requires
        old_cursor != 0,
        x != 0,
        !old_active.contains(x),
        allocated(old_cursor, old_active, new_cursor, new_active, r),
    ensures
        r == x || (!new_active.contains(x) && dist(new_cursor, x) < dist(old_cursor, x)),
{
}

} // verus!
