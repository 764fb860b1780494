//! Recycling id allocator: hands out the most recently returned id first, and
//! a fresh id only when none has been returned.
use vstd::prelude::*;

verus! {

pub struct RecycleAllocator {
    current: usize,
    recycled: Vec<usize>,
}

impl RecycleAllocator {
    #[verifier::type_invariant]
    closed spec fn inv(self) -> bool {
        &&& self.recycled@.no_duplicates()
        &&& forall|k: int| 0 <= k < self.recycled@.len() ==> #[trigger] self.recycled@[k] < self.current
    }

    /// One past the largest id ever handed out.
    pub closed spec fn spec_current(self) -> nat {
        self.current as nat
    }

    /// The ids that were handed back and wait to be handed out again, the
    /// next one last.
    pub closed spec fn spec_recycled(self) -> Seq<usize> {
        self.recycled@
    }

    /// The ids in use: handed out and not handed back.
    pub open spec fn allocated(self) -> Set<usize> {
        Set::new(|id: usize| id < self.spec_current() && !self.spec_recycled().contains(id))
    }

    /// `new` is `old` after handing out `id`: the last returned id if there
    /// is one, else the next fresh id.
    pub open spec fn handed_out(old: Self, new: Self, id: usize) -> bool {
        &&& old.spec_recycled().len() > 0 ==> {
            &&& id == old.spec_recycled().last()
            &&& new.spec_recycled() == old.spec_recycled().drop_last()
            &&& new.spec_current() == old.spec_current()
        }
        &&& old.spec_recycled().len() == 0 ==> {
            &&& id == old.spec_current()
            &&& new.spec_recycled() == old.spec_recycled()
            &&& new.spec_current() == old.spec_current() + 1
        }
        &&& !old.allocated().contains(id)
        &&& new.allocated() == old.allocated().insert(id)
    }

    /// An id can be handed out: one was returned, or a fresh one is left.
    pub open spec fn can_allocate(self) -> bool {
        self.spec_recycled().len() > 0 || self.spec_current() < usize::MAX
    }

    pub fn new() -> (a: Self)
        ensures
            a.spec_current() == 0,
            a.spec_recycled() == Seq::<usize>::empty(),
            a.allocated() == Set::<usize>::empty(),
    {
        let a = RecycleAllocator { current: 0, recycled: Vec::new() };
        assert(a.allocated() =~= Set::<usize>::empty());
        a
    }

    /// Hands out the last returned id if there is one, else the next fresh id.
    pub fn allocate(&mut self) -> (id: usize)
        requires
            old(self).spec_recycled().len() > 0 || old(self).spec_current() < usize::MAX,
        ensures
            old(self).spec_recycled().len() > 0 ==> {
                &&& id == old(self).spec_recycled().last()
                &&& final(self).spec_recycled() == old(self).spec_recycled().drop_last()
                &&& final(self).spec_current() == old(self).spec_current()
            },
            old(self).spec_recycled().len() == 0 ==> {
                &&& id == old(self).spec_current()
                &&& final(self).spec_recycled() == old(self).spec_recycled()
                &&& final(self).spec_current() == old(self).spec_current() + 1
            },
            !old(self).allocated().contains(id),
            final(self).allocated() == old(self).allocated().insert(id),
            Self::handed_out(*old(self), *final(self), id),
    {
        proof {
            use_type_invariant(&*self);
        }
        let ghost before = *self;
        let mut recycled: Vec<usize> = Vec::new();
        std::mem::swap(&mut recycled, &mut self.recycled);
        let popped = recycled.pop();
        if let Some(id) = popped {
            proof {
                let r = before.recycled@;
                assert(r.drop_last().no_duplicates()) by {
                    assert forall|a: int, b: int|
                        0 <= a < r.len() - 1 && 0 <= b < r.len() - 1 && a != b implies r.drop_last()[a]
                        != r.drop_last()[b] by {
                        assert(r.drop_last()[a] == r[a]);
                        assert(r.drop_last()[b] == r[b]);
                    }
                }
                assert(!r.drop_last().contains(id)) by {
                    if r.drop_last().contains(id) {
                        let p = choose|p: int| 0 <= p < r.len() - 1 && r.drop_last()[p] == id;
                        assert(r[p] == r[r.len() - 1]);
                    }
                }
                assert(r.contains(id)) by {
                    assert(r[r.len() - 1] == id);
                }
                assert forall|x: usize| r.drop_last().contains(x) implies r.contains(x) by {
                    let p = choose|p: int| 0 <= p < r.len() - 1 && r.drop_last()[p] == x;
                    assert(r[p] == x);
                }
                assert forall|x: usize| r.contains(x) && x != id implies r.drop_last().contains(x) by {
                    let p = choose|p: int| 0 <= p < r.len() && r[p] == x;
                    assert(p != r.len() - 1);
                    assert(r.drop_last()[p] == x);
                }
                assert forall|k: int| 0 <= k < recycled@.len() implies #[trigger] recycled@[k]
                    < self.current by {
                    assert(recycled@[k] == r[k]);
                }
            }
            self.recycled = recycled;
            proof {
                assert(self.allocated() =~= before.allocated().insert(id));
            }
            id
        } else {
            self.recycled = recycled;
            let id = self.current;
            self.current = self.current + 1;
            proof {
                assert(self.recycled@ =~= Seq::<usize>::empty());
                assert(self.allocated() =~= before.allocated().insert(id));
            }
            id
        }
    }

    /// Takes back `id`, which must be in use; it is the next one handed out.
    pub fn deallocate(&mut self, id: usize)
        requires
            old(self).allocated().contains(id),
        ensures
            final(self).spec_current() == old(self).spec_current(),
            final(self).spec_recycled() == old(self).spec_recycled().push(id),
            final(self).allocated() == old(self).allocated().remove(id),
    {
        proof {
            use_type_invariant(&*self);
        }
        let ghost before = *self;
        let mut recycled: Vec<usize> = Vec::new();
        std::mem::swap(&mut recycled, &mut self.recycled);
        recycled.push(id);
        proof {
            let r = before.recycled@;
            let r2 = recycled@;
            assert(r2 == r.push(id));
            assert forall|a: int, b: int|
                0 <= a < r2.len() && 0 <= b < r2.len() && a != b implies r2[a] != r2[b] by {
                if a < r.len() {
                    assert(r2[a] == r[a]);
                    assert(r.contains(r[a]));
                }
                if b < r.len() {
                    assert(r2[b] == r[b]);
                    assert(r.contains(r[b]));
                }
            }
            assert forall|k: int| 0 <= k < r2.len() implies #[trigger] r2[k] < self.current by {
                if k < r.len() {
                    assert(r2[k] == r[k]);
                }
            }
            assert forall|x: usize| r2.contains(x) <==> (r.contains(x) || x == id) by {
                if r2.contains(x) {
                    let p = choose|p: int| 0 <= p < r2.len() && r2[p] == x;
                    if p < r.len() {
                        assert(r[p] == x);
                    }
                }
                if r.contains(x) {
                    let p = choose|p: int| 0 <= p < r.len() && r[p] == x;
                    assert(r2[p] == x);
                }
                if x == id {
                    assert(r2[r.len() as int] == x);
                }
            }
        }
        self.recycled = recycled;
        proof {
            assert(self.allocated() =~= before.allocated().remove(id));
        }
    }
}

/// An id that is handed back is the next one handed out, and the ids in
/// use are then what they were before it was handed back.
pub proof fn law_dealloc_then_alloc(
    a: RecycleAllocator,
    b: RecycleAllocator,
    c: RecycleAllocator,
    id: usize,
    r: usize,
)
    requires
        a.allocated().contains(id),
        b.spec_current() == a.spec_current(),
        b.spec_recycled() == a.spec_recycled().push(id),
        r == b.spec_recycled().last(),
        c.spec_recycled() == b.spec_recycled().drop_last(),
        c.spec_current() == b.spec_current(),
    ensures
        r == id,
        c.allocated() == a.allocated(),
{
    assert(a.spec_recycled().push(id).drop_last() =~= a.spec_recycled());
    assert(c.allocated() =~= a.allocated());
}

/// Handing an id back right after it was handed out leaves the ids in use
/// as they were.
pub proof fn law_alloc_then_dealloc(
    a: RecycleAllocator,
    b: RecycleAllocator,
    c: RecycleAllocator,
    id: usize,
)
    requires
        RecycleAllocator::handed_out(a, b, id),
        c.allocated() == b.allocated().remove(id),
    ensures
        c.allocated() == a.allocated(),
{
    assert(c.allocated() =~= a.allocated());
}

} // verus!
