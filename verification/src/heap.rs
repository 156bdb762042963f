//! The managed heap: a registry of objects under stable ids, with a mark
//! bit per object for the collector.

use crate::value::Value;
use vstd::pervasive::VecAdditionalExecFns;
use vstd::prelude::*;

verus! {

/// Where an upvalue's storage lives: an absolute slot of the evaluation
/// stack while open, a boxed heap cell once closed.
#[derive(Debug, Clone, Copy, PartialEq, Eq, Structural)]
pub enum UpValueLocation {
    Stack(u16),
    Heap(u32),
}

/// An indirection cell for a captured variable.
#[derive(Debug, Clone, Copy, PartialEq, Eq, Structural)]
pub struct UpValue {
    pub loc: UpValueLocation,
}

impl UpValue {
    /// A fresh open upvalue over stack slot `slot`.
    pub fn stack(slot: u16) -> (u: UpValue)
        ensures
            u.loc == UpValueLocation::Stack(slot),
    {
        UpValue { loc: UpValueLocation::Stack(slot) }
    }
}

/// A closure: an index into the virtual machine's function table, plus the
/// upvalues captured when the closure was built.
#[derive(Debug)]
pub struct Closure {
    pub fn_idx: u16,
    pub upvalues: Vec<u32>,
}

/// A heap object.
#[derive(Debug)]
pub enum ObjType {
    Closure(Closure),
    UpValue(UpValue),
    BoxedValue(Value),
}

/// An allocated object together with its mark bit.
#[derive(Debug)]
pub struct HeapEntry {
    pub obj: ObjType,
    pub marked: bool,
}

/// The heap: object ids are indices into `mem`; a reclaimed slot holds
/// nothing.  Ids are handed out monotonically and never reused, so `mem`
/// keeps an empty tombstone slot per reclaimed id: after a collection the
/// *live* object count is exactly the reachable set (the bound the sweep
/// guarantees), while the id space itself grows with total allocations.
pub struct Heap {
    pub mem: Vec<Option<HeapEntry>>,
}

impl Heap {
    /// Id `id` names a live object.
    pub open spec fn live(self, id: u32) -> bool {
        (id as int) < self.mem@.len() && self.mem@[id as int] is Some
    }

    /// The object under a live id.
    pub open spec fn obj(self, id: u32) -> ObjType {
        self.mem@[id as int]->Some_0.obj
    }

    /// The mark bit of a live id.
    pub open spec fn marked(self, id: u32) -> bool {
        self.mem@[id as int]->Some_0.marked
    }

    /// How many ids up to `n` are live.
    pub open spec fn live_upto(self, n: int) -> int
        decreases n,
    {
        if n <= 0 {
            0
        } else {
            self.live_upto(n - 1) + if self.mem@[n - 1] is Some {
                1int
            } else {
                0int
            }
        }
    }

    /// The number of live objects.
    pub open spec fn spec_live_count(self) -> int {
        self.live_upto(self.mem@.len() as int)
    }

    /// An empty heap.
    pub fn new() -> (h: Heap)
        ensures
            h.mem@.len() == 0,
    {
        Heap { mem: Vec::new() }
    }

    /// Allocates `obj` under a fresh id, unmarked.  Fails only when the id
    /// space is exhausted, in which case nothing changes.
    pub fn allocate(&mut self, obj: ObjType) -> (r: Option<u32>)
        ensures
            match r {
                Some(id) => {
                    &&& !old(self).live(id)
                    &&& final(self).live(id)
                    &&& final(self).obj(id) == obj
                    &&& !final(self).marked(id)
                    &&& final(self).mem@.len() == old(self).mem@.len() + 1
                    &&& old(self).mem@.len() < u32::MAX as int
                    &&& id as int == old(self).mem@.len()
                    &&& forall|j: u32|
                        j != id ==> final(self).live(j) == old(self).live(j) && (old(self).live(j)
                            ==> final(self).obj(j) == old(self).obj(j) && final(self).marked(j)
                            == old(self).marked(j))
                },
                None => final(self).mem@ == old(self).mem@ && old(self).mem@.len() >= u32::MAX as int,
            },
    {
        if self.mem.len() < u32::MAX as usize {
            let id = self.mem.len() as u32;
            self.mem.push(Some(HeapEntry { obj, marked: false }));
            Some(id)
        } else {
            None
        }
    }

    /// Allocates a boxed value cell.
    pub fn allocate_val(&mut self, v: Value) -> (r: Option<u32>)
        ensures
            match r {
                Some(id) => {
                    &&& !old(self).live(id)
                    &&& final(self).live(id)
                    &&& final(self).obj(id) == ObjType::BoxedValue(v)
                    &&& !final(self).marked(id)
                    &&& final(self).mem@.len() == old(self).mem@.len() + 1
                    &&& old(self).mem@.len() < u32::MAX as int
                    &&& id as int == old(self).mem@.len()
                    &&& forall|j: u32|
                        j != id ==> final(self).live(j) == old(self).live(j) && (old(self).live(j)
                            ==> final(self).obj(j) == old(self).obj(j) && final(self).marked(j)
                            == old(self).marked(j))
                },
                None => final(self).mem@ == old(self).mem@ && old(self).mem@.len() >= u32::MAX as int,
            },
    {
        self.allocate(ObjType::BoxedValue(v))
    }

    /// The object under `id`.
    pub fn get(&self, id: u32) -> (r: &ObjType)
        requires
            self.live(id),
        ensures
            *r == self.obj(id),
    {
        match &self.mem[id as usize] {
            Some(e) => &e.obj,
            None => {
                proof {
                    assert(false);
                }
                &self.mem[0].as_ref().unwrap().obj
            },
        }
    }

    /// A copy of the value in a boxed cell.
    pub fn get_val(&self, id: u32) -> (r: Value)
        requires
            self.live(id),
            self.obj(id) is BoxedValue,
        ensures
            r == self.obj(id)->BoxedValue_0,
    {
        match self.get(id) {
            ObjType::BoxedValue(v) => v.clone(),
            _ => {
                proof {
                    assert(false);
                }
                Value::Null
            },
        }
    }

    /// Replaces the object under `id`, preserving its mark bit.
    fn replace_obj(&mut self, id: u32, obj: ObjType)
        requires
            old(self).live(id),
        ensures
            final(self).live(id),
            final(self).obj(id) == obj,
            final(self).marked(id) == old(self).marked(id),
            final(self).mem@.len() == old(self).mem@.len(),
            forall|j: u32|
                j != id ==> final(self).live(j) == old(self).live(j) && (old(self).live(j)
                    ==> final(self).obj(j) == old(self).obj(j) && final(self).marked(j) == old(
                    self,
                ).marked(j)),
    {
        let mut taken: Option<HeapEntry> = None;
        self.mem.set_and_swap(id as usize, &mut taken);
        match taken {
            Some(e) => {
                self.mem.set(id as usize, Some(HeapEntry { obj, marked: e.marked }));
            },
            None => {
                proof {
                    assert(false);
                }
            },
        }
    }

    /// Overwrites the value in a boxed cell.
    pub fn set_val(&mut self, id: u32, v: Value)
        requires
            old(self).live(id),
            old(self).obj(id) is BoxedValue,
        ensures
            final(self).live(id),
            final(self).obj(id) == ObjType::BoxedValue(v),
            final(self).marked(id) == old(self).marked(id),
            final(self).mem@.len() == old(self).mem@.len(),
            forall|j: u32|
                j != id ==> final(self).live(j) == old(self).live(j) && (old(self).live(j)
                    ==> final(self).obj(j) == old(self).obj(j) && final(self).marked(j) == old(
                    self,
                ).marked(j)),
    {
        self.replace_obj(id, ObjType::BoxedValue(v));
    }

    /// Turns the upvalue under `id` into a closed one over cell `cell`.
    pub fn close_upvalue(&mut self, id: u32, cell: u32)
        requires
            old(self).live(id),
            old(self).obj(id) is UpValue,
        ensures
            final(self).live(id),
            final(self).obj(id) == ObjType::UpValue(UpValue { loc: UpValueLocation::Heap(cell) }),
            final(self).marked(id) == old(self).marked(id),
            final(self).mem@.len() == old(self).mem@.len(),
            forall|j: u32|
                j != id ==> final(self).live(j) == old(self).live(j) && (old(self).live(j)
                    ==> final(self).obj(j) == old(self).obj(j) && final(self).marked(j) == old(
                    self,
                ).marked(j)),
    {
        self.replace_obj(id, ObjType::UpValue(UpValue { loc: UpValueLocation::Heap(cell) }));
    }

    /// The location of the upvalue under `id`.
    pub fn upvalue_loc(&self, id: u32) -> (r: UpValueLocation)
        requires
            self.live(id),
            self.obj(id) is UpValue,
        ensures
            self.obj(id) == ObjType::UpValue(UpValue { loc: r }),
    {
        match self.get(id) {
            ObjType::UpValue(u) => u.loc,
            _ => {
                proof {
                    assert(false);
                }
                UpValueLocation::Heap(0)
            },
        }
    }

    /// The mark bit of `id`.
    pub fn is_marked(&self, id: u32) -> (r: bool)
        requires
            self.live(id),
        ensures
            r == self.marked(id),
    {
        match &self.mem[id as usize] {
            Some(e) => e.marked,
            None => {
                proof {
                    assert(false);
                }
                false
            },
        }
    }

    /// Sets the mark bit of `id`.
    pub fn mark(&mut self, id: u32)
        requires
            old(self).live(id),
        ensures
            final(self).live(id),
            final(self).obj(id) == old(self).obj(id),
            final(self).marked(id),
            final(self).mem@.len() == old(self).mem@.len(),
            forall|j: u32|
                j != id ==> final(self).live(j) == old(self).live(j) && (old(self).live(j)
                    ==> final(self).obj(j) == old(self).obj(j) && final(self).marked(j) == old(
                    self,
                ).marked(j)),
    {
        let mut taken: Option<HeapEntry> = None;
        self.mem.set_and_swap(id as usize, &mut taken);
        match taken {
            Some(e) => {
                self.mem.set(id as usize, Some(HeapEntry { obj: e.obj, marked: true }));
            },
            None => {
                proof {
                    assert(false);
                }
            },
        }
    }

    /// The number of live objects.
    pub fn live_count(&self) -> (r: usize)
        ensures
            r as int == self.spec_live_count(),
    {
        let mut n: usize = 0;
        let mut i: usize = 0;
        while i < self.mem.len()
            invariant
                i <= self.mem@.len(),
                n as int == self.live_upto(i as int),
                n <= i,
            decreases self.mem@.len() - i,
        {
            if self.mem[i].is_some() {
                n = n + 1;
            }
            i = i + 1;
        }
        n
    }

    /// How many ids up to `n` are live and marked.
    pub open spec fn marked_upto(self, n: int) -> int
        decreases n,
    {
        if n <= 0 {
            0
        } else {
            self.marked_upto(n - 1) + if self.mem@[n - 1] matches Some(e) && e.marked {
                1int
            } else {
                0int
            }
        }
    }

    /// The number of marked objects.
    pub open spec fn spec_marked_count(self) -> int {
        self.marked_upto(self.mem@.len() as int)
    }

    /// Counts are non-negative and no more objects are marked than live.
    pub proof fn lemma_counts(self, n: int)
        ensures
            0 <= self.marked_upto(n) <= self.live_upto(n),
            self.live_upto(n) <= if n >= 0 { n } else { 0 },
        decreases n,
    {
        if n > 0 {
            self.lemma_counts(n - 1);
        }
    }

    /// Marking one live, unmarked id raises the marked count by one and the
    /// live count not at all.
    pub proof fn lemma_counts_after_mark(pre: Heap, post: Heap, id: u32, n: int)
        requires
            pre.mem@.len() == post.mem@.len(),
            forall|j: u32|
                j != id ==> post.live(j) == pre.live(j) && (pre.live(j) ==> post.obj(j) == pre.obj(
                    j,
                ) && post.marked(j) == pre.marked(j)),
            pre.live(id),
            !pre.marked(id),
            post.live(id),
            post.marked(id),
            n <= pre.mem@.len(),
            pre.mem@.len() <= u32::MAX as int,
        ensures
            post.live_upto(n) == pre.live_upto(n),
            n <= id ==> post.marked_upto(n) == pre.marked_upto(n),
            n > id ==> post.marked_upto(n) == pre.marked_upto(n) + 1,
        decreases n,
    {
        if n > 0 {
            Self::lemma_counts_after_mark(pre, post, id, n - 1);
            if n - 1 != id {
                assert(post.live((n - 1) as u32) == pre.live((n - 1) as u32));
                if pre.live((n - 1) as u32) {
                    assert(post.marked((n - 1) as u32) == pre.marked((n - 1) as u32));
                    assert(post.mem@[n - 1] matches Some(e) && e.marked <==> (pre.mem@[n - 1]
                        matches Some(e) && e.marked));
                } else {
                    assert(!(post.mem@[n - 1] is Some));
                    assert(!(pre.mem@[n - 1] is Some));
                }
            }
        }
    }

    /// Clears every mark bit; objects and liveness stay as they are.
    pub fn unmark_all(&mut self)
        ensures
            final(self).mem@.len() == old(self).mem@.len(),
            forall|j: u32|
                final(self).live(j) == old(self).live(j) && (old(self).live(j) ==> final(self).obj(
                    j,
                ) == old(self).obj(j) && !final(self).marked(j)),
    {
        let n = self.mem.len();
        let mut i: usize = 0;
        while i < n
            invariant
                n == self.mem@.len(),
                n == old(self).mem@.len(),
                i <= n,
                forall|j: u32|
                    self.live(j) == old(self).live(j) && (old(self).live(j) ==> self.obj(j) == old(
                        self,
                    ).obj(j)),
                forall|j: u32| (j as int) < i && old(self).live(j) ==> !self.marked(j),
                forall|j: u32|
                    i <= (j as int) && old(self).live(j) ==> self.marked(j) == old(self).marked(j),
            decreases n - i,
        {
            let mut taken: Option<HeapEntry> = None;
            self.mem.set_and_swap(i, &mut taken);
            match taken {
                Some(e) => {
                    self.mem.set(i, Some(HeapEntry { obj: e.obj, marked: false }));
                },
                None => {
                    self.mem.set(i, None);
                },
            }
            i = i + 1;
        }
    }

    /// Reclaims every unmarked object: afterwards an id is live exactly when
    /// it was live and marked, and surviving objects are unchanged.
    pub fn sweep_unmarked(&mut self)
        ensures
            final(self).mem@.len() == old(self).mem@.len(),
            forall|j: u32|
                final(self).live(j) == (old(self).live(j) && old(self).marked(j)),
            forall|j: u32|
                final(self).live(j) ==> final(self).obj(j) == old(self).obj(j),
    {
        let n = self.mem.len();
        let mut i: usize = 0;
        while i < n
            invariant
                n == self.mem@.len(),
                n == old(self).mem@.len(),
                i <= n,
                forall|j: u32|
                    (j as int) < i ==> self.live(j) == (old(self).live(j) && old(self).marked(j))
                        && (self.live(j) ==> self.obj(j) == old(self).obj(j)),
                forall|j: u32|
                    i <= (j as int) ==> self.live(j) == old(self).live(j) && (old(self).live(j)
                        ==> self.obj(j) == old(self).obj(j) && self.marked(j) == old(self).marked(
                        j,
                    )),
            decreases n - i,
        {
            let drop_it = match &self.mem[i] {
                Some(e) => !e.marked,
                None => false,
            };
            if drop_it {
                self.mem.set(i, None);
            }
            i = i + 1;
        }
    }
}

} // verus!
