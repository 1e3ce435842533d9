//! Local identifiers for logical nodes, and the allocator that issues them.
use vstd::prelude::*;

verus! {

/// A local identifier of a logical node. Identifiers are unique among the
/// logical nodes that are alive; one that was freed may be issued again.
#[derive(Debug, PartialEq, Eq, Structural, Clone, Copy, Hash)]
pub struct Id(pub usize);

impl Id {
    #[inline]
    pub fn as_usize(&self) -> (n: usize)
        ensures
            n == self.0,
    {
        self.0
    }
}

/// Issues identifiers: the one freed last if any was freed, else the next
/// number of a counter that starts at one.
pub struct IdAllocator {
    freed: Vec<usize>,
    next_id: usize,
}

/// The mathematical state of an [`IdAllocator`].
pub struct IdAllocatorView {
    /// The identifiers handed back, oldest first.
    pub freed: Seq<usize>,
    /// The highest number the counter has issued.
    pub next_id: nat,
}

impl IdAllocatorView {
    /// Whether an identifier can be issued without the counter leaving `usize`.
    pub open spec fn can_allocate(self) -> bool {
        self.freed.len() > 0 || self.next_id < usize::MAX
    }

    /// The identifier that the next allocation issues.
    pub open spec fn next(self) -> Id {
        if self.freed.len() > 0 {
            Id(self.freed.last())
        } else {
            Id((self.next_id + 1) as usize)
        }
    }

    /// The allocator after the next allocation.
    pub open spec fn allocate(self) -> IdAllocatorView {
        if self.freed.len() > 0 {
            IdAllocatorView { freed: self.freed.drop_last(), next_id: self.next_id }
        } else {
            IdAllocatorView { freed: self.freed, next_id: self.next_id + 1 }
        }
    }

    /// The allocator after `id` was handed back.
    pub open spec fn free(self, id: Id) -> IdAllocatorView {
        IdAllocatorView { freed: self.freed.push(id.0), next_id: self.next_id }
    }

    /// The counter has issued `id` at some time.
    pub open spec fn issued(self, id: Id) -> bool {
        1 <= id.0 <= self.next_id
    }

    /// `id` was handed back and not issued again since.
    pub open spec fn is_free(self, id: Id) -> bool {
        self.freed.contains(id.0)
    }

    /// Every identifier handed back is one that the counter has issued, and
    /// none was handed back twice.
    pub open spec fn wf(self) -> bool {
        &&& self.next_id <= usize::MAX
        &&& self.freed.no_duplicates()
        &&& forall|i: int| 0 <= i < self.freed.len()
            ==> 1 <= #[trigger] self.freed[i] <= self.next_id
    }
}

/// An allocation issues an identifier that was free or never issued, and
/// changes the standing of no other.
pub proof fn lemma_allocate(a: IdAllocatorView)
    requires
        a.wf(),
        a.can_allocate(),
    ensures
        a.allocate().wf(),
        a.allocate().issued(a.next()),
        !a.allocate().is_free(a.next()),
        a.is_free(a.next()) || !a.issued(a.next()),
        forall|id: Id| id != a.next() ==> a.allocate().is_free(id) == a.is_free(id),
        forall|id: Id| a.issued(id) ==> a.allocate().issued(id),
{
    let b = a.allocate();
    if a.freed.len() > 0 {
        let last = a.freed.len() - 1;
        assert(a.freed[last] == a.next().0);
        assert(!b.freed.contains(a.next().0)) by {
            if b.freed.contains(a.next().0) {
                let i = b.freed.index_of(a.next().0);
                assert(a.freed[i] == a.freed[last]);
            }
        }
        assert forall|id: Id| id != a.next() implies b.is_free(id) == a.is_free(id) by {
            if a.freed.contains(id.0) {
                let i = a.freed.index_of(id.0);
                assert(b.freed[i] == id.0);
            }
            if b.freed.contains(id.0) {
                let i = b.freed.index_of(id.0);
                assert(a.freed[i] == id.0);
            }
        }
    } else {
        assert(!b.freed.contains(a.next().0));
    }
}

/// Handing back an identifier that is issued and not free makes it free,
/// and changes the standing of no other.
pub proof fn lemma_free(a: IdAllocatorView, id: Id)
    requires
        a.wf(),
        a.issued(id),
        !a.is_free(id),
    ensures
        a.free(id).wf(),
        a.free(id).is_free(id),
        a.free(id).next() == id,
        forall|other: Id| other != id ==> a.free(id).is_free(other) == a.is_free(other),
        forall|other: Id| a.free(id).issued(other) == a.issued(other),
{
    let b = a.free(id);
    assert(b.freed[a.freed.len() as int] == id.0);
    assert forall|other: Id| other != id implies b.is_free(other) == a.is_free(other) by {
        if a.freed.contains(other.0) {
            let i = a.freed.index_of(other.0);
            assert(b.freed[i] == other.0);
        }
        if b.freed.contains(other.0) {
            let i = b.freed.index_of(other.0);
            assert(a.freed[i] == other.0);
        }
    }
    assert forall|i: int, j: int| 0 <= i < b.freed.len() && 0 <= j < b.freed.len() && i != j
        implies b.freed[i] != b.freed[j] by {
        if i < a.freed.len() {
            assert(a.freed.contains(b.freed[i]));
        }
        if j < a.freed.len() {
            assert(a.freed.contains(b.freed[j]));
        }
    }
}

impl View for IdAllocator {
    type V = IdAllocatorView;

    closed spec fn view(&self) -> IdAllocatorView {
        IdAllocatorView { freed: self.freed@, next_id: self.next_id as nat }
    }
}

impl IdAllocator {
    /// An allocator that has issued nothing.
    pub fn new() -> (a: Self)
        ensures
            a@ == (IdAllocatorView { freed: Seq::empty(), next_id: 0 }),
            a@.wf(),
    {
        Self { freed: Vec::new(), next_id: 0 }
    }

    /// Whether [`IdAllocator::allocate`] may be called.
    pub fn can_allocate(&self) -> (b: bool)
        ensures
            b == self@.can_allocate(),
    {
        self.freed.len() > 0 || self.next_id < usize::MAX
    }

    /// Issues an identifier: the one handed back last, or the next number.
    pub fn allocate(&mut self) -> (id: Id)
        requires
            old(self)@.can_allocate(),
        ensures
            id == old(self)@.next(),
            final(self)@ == old(self)@.allocate(),
    {
        let inner: usize = if let Some(id) = self.freed.pop() {
            id
        } else {
            self.next_id += 1;
            self.next_id
        };
        Id(inner)
    }

    /// Takes `id` back, to be issued again.
    pub fn free(&mut self, id: Id)
        ensures
            final(self)@ == old(self)@.free(id),
    {
        self.freed.push(id.0);
    }
}

} // verus!
