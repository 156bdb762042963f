//! The mark-sweep collector.
//!
//! Roots are every value on the evaluation stack, the closures of the active
//! and of every saved frame, and every id on the open-upvalue list.  Marking
//! follows closure upvalues, closed upvalues' cells, and heap ids inside
//! boxed values.  [`GC::collect_garbage`] is proved exact: an id survives it
//! if and only if it was live and reachable from the roots.

use crate::heap::{Heap, ObjType, UpValueLocation};
use crate::value::Value;
use crate::vm::VM;
use vstd::prelude::*;

verus! {

/// The ids an object refers to directly.
pub open spec fn edge_ids(o: ObjType) -> Set<u32> {
    match o {
        ObjType::Closure(c) => Set::new(|id: u32| c.upvalues@.contains(id)),
        ObjType::UpValue(u) => match u.loc {
            UpValueLocation::Heap(cell) => Set::<u32>::empty().insert(cell),
            UpValueLocation::Stack(_) => Set::<u32>::empty(),
        },
        ObjType::BoxedValue(v) => match v {
            Value::Heap(id) => Set::<u32>::empty().insert(id),
            _ => Set::<u32>::empty(),
        },
    }
}

/// The collector's root set of a machine.
pub open spec fn root_ids(vm: VM) -> Set<u32> {
    Set::new(
        |id: u32|
            {
                ||| vm.frame.clsr_id == id
                ||| exists|i: int|
                    0 <= i < vm.callstack@.len() && (#[trigger] vm.callstack@[i]).clsr_id == id
                ||| vm.stack@.contains(Value::Heap(id))
                ||| vm.open_upvalues@.contains(id)
            },
    )
}

/// `s` is closed under the heap's edges: no live member refers outside `s`.
pub open spec fn closed_set(h: Heap, s: Set<u32>) -> bool {
    forall|id: u32| #[trigger] s.contains(id) && h.live(id) ==> edge_ids(h.obj(id)).subset_of(s)
}

/// `id` is reachable from `roots`: it belongs to every closed superset of
/// the roots.
pub open spec fn reachable(h: Heap, roots: Set<u32>, id: u32) -> bool {
    forall|s: Set<u32>| roots.subset_of(s) && #[trigger] closed_set(h, s) ==> s.contains(id)
}

/// Two heaps agree on liveness and on every live object (marks may differ).
pub open spec fn same_live_objs(h1: Heap, h2: Heap) -> bool {
    forall|id: u32|
        #![trigger h1.live(id)]
        #![trigger h2.live(id)]
        h1.live(id) == h2.live(id) && (h1.live(id) ==> h1.obj(id) == h2.obj(id))
}

/// `id` is live and carries a mark.
pub open spec fn marked_live(h: Heap, id: u32) -> bool {
    h.live(id) && h.marked(id)
}

/// The set of marked ids.
pub open spec fn mset(h: Heap) -> Set<u32> {
    Set::new(|id: u32| marked_live(h, id))
}

/// Everything of a machine except its heap.
pub open spec fn same_frame_state(a: VM, b: VM) -> bool {
    &&& a.stack@ == b.stack@
    &&& a.frame == b.frame
    &&& a.callstack@ == b.callstack@
    &&& a.open_upvalues@ == b.open_upvalues@
    &&& a.functions@ == b.functions@
    &&& a.trace_out@ == b.trace_out@
    &&& a.debug == b.debug
    &&& a.gc_thr == b.gc_thr
}

/// Every root is reachable.
pub proof fn lemma_root_reachable(h: Heap, roots: Set<u32>, id: u32)
    requires
        roots.contains(id),
    ensures
        reachable(h, roots, id),
{
}

/// Reachability follows edges of live objects.
pub proof fn lemma_reachable_edge(h: Heap, roots: Set<u32>, id: u32, t: u32)
    requires
        reachable(h, roots, id),
        h.live(id),
        edge_ids(h.obj(id)).contains(t),
    ensures
        reachable(h, roots, t),
{
    assert forall|s: Set<u32>| roots.subset_of(s) && #[trigger] closed_set(h, s) implies s.contains(
        t,
    ) by {
        assert(s.contains(id));
        assert(edge_ids(h.obj(id)).subset_of(s));
    }
}

/// Heaps with the same live objects reach the same ids.
pub proof fn lemma_reachable_same(h1: Heap, h2: Heap, roots: Set<u32>)
    requires
        same_live_objs(h1, h2),
    ensures
        forall|id: u32| reachable(h1, roots, id) == reachable(h2, roots, id),
{
    assert forall|s: Set<u32>| closed_set(h1, s) == closed_set(h2, s) by {
        if closed_set(h1, s) {
            assert forall|id: u32| #[trigger] s.contains(id) && h2.live(id) implies edge_ids(
                h2.obj(id),
            ).subset_of(s) by {
                assert(h1.live(id));
            }
        }
        if closed_set(h2, s) {
            assert forall|id: u32| #[trigger] s.contains(id) && h1.live(id) implies edge_ids(
                h1.obj(id),
            ).subset_of(s) by {
                assert(h2.live(id));
            }
        }
    }
    assert forall|id: u32| reachable(h1, roots, id) == reachable(h2, roots, id) by {
        if reachable(h1, roots, id) {
            assert forall|s: Set<u32>|
                roots.subset_of(s) && #[trigger] closed_set(h2, s) implies s.contains(id) by {
                assert(closed_set(h1, s));
            }
        }
        if reachable(h2, roots, id) {
            assert forall|s: Set<u32>|
                roots.subset_of(s) && #[trigger] closed_set(h1, s) implies s.contains(id) by {
                assert(closed_set(h2, s));
            }
        }
    }
}

/// Marks `id` and queues it, unless it already carries a mark.  Liveness and
/// objects never change; marks only grow, by exactly this id.
fn mark_from(h: &mut Heap, w: &mut Vec<u32>, id: u32)
    requires
        old(h).live(id),
        old(h).mem@.len() <= u32::MAX as int,
    ensures
        final(h).mem@.len() == old(h).mem@.len(),
        same_live_objs(*final(h), *old(h)),
        forall|j: u32| j != id && old(h).live(j) ==> final(h).marked(j) == old(h).marked(j),
        marked_live(*final(h), id),
        old(h).marked(id) ==> *final(h) == *old(h) && final(w)@ == old(w)@,
        !old(h).marked(id) ==> final(w)@ == old(w)@.push(id) && final(h).spec_marked_count() == old(
            h,
        ).spec_marked_count() + 1,
        final(h).spec_live_count() == old(h).spec_live_count(),
        mset(*final(h)) == mset(*old(h)).insert(id),
{
    if !h.is_marked(id) {
        let ghost pre = *h;
        h.mark(id);
        w.push(id);
        proof {
            Heap::lemma_counts_after_mark(pre, *h, id, pre.mem@.len() as int);
            assert(mset(*h) =~= mset(pre).insert(id));
        }
    } else {
        proof {
            assert(mset(*h) =~= mset(*h).insert(id));
        }
    }
}

/// Copies out the ids an object refers to.
fn edge_targets(o: &ObjType) -> (v: Vec<u32>)
    ensures
        forall|x: u32| v@.contains(x) == edge_ids(*o).contains(x),
{
    match o {
        ObjType::Closure(c) => {
            let mut v: Vec<u32> = Vec::new();
            let mut k: usize = 0;
            while k < c.upvalues.len()
                invariant
                    k <= c.upvalues@.len(),
                    v@ == c.upvalues@.take(k as int),
                decreases c.upvalues@.len() - k,
            {
                v.push(c.upvalues[k]);
                proof {
                    assert(c.upvalues@.take(k + 1 as int) =~= c.upvalues@.take(k as int).push(
                        c.upvalues@[k as int],
                    ));
                }
                k = k + 1;
            }
            proof {
                assert(v@ =~= c.upvalues@);
            }
            v
        },
        ObjType::UpValue(u) => {
            match u.loc {
                UpValueLocation::Heap(cell) => {
                    let mut v: Vec<u32> = Vec::new();
                    v.push(cell);
                    proof {
                        assert forall|x: u32| v@.contains(x) == edge_ids(*o).contains(x) by {
                            if v@.contains(x) {
                                assert(x == cell);
                            }
                            if x == cell {
                                assert(v@[0] == x);
                                assert(v@.contains(x));
                            }
                        }
                    }
                    v
                },
                UpValueLocation::Stack(_) => Vec::new(),
            }
        },
        ObjType::BoxedValue(val) => {
            match val {
                Value::Heap(id) => {
                    let mut v: Vec<u32> = Vec::new();
                    v.push(*id);
                    proof {
                        assert forall|x: u32| v@.contains(x) == edge_ids(*o).contains(x) by {
                            if v@.contains(x) {
                                assert(x == id);
                            }
                            if x == id {
                                assert(v@[0] == x);
                                assert(v@.contains(x));
                            }
                        }
                    }
                    v
                },
                _ => Vec::new(),
            }
        },
    }
}

/// The collector.  It owns no state between collections; a value of it is
/// the license to interrupt the machine at a collection point.
pub struct GC {
    _private: bool,
}

impl GC {
    /// A collector.
    pub fn new() -> (g: GC) {
        GC { _private: false }
    }

    /// One full mark-sweep pass.  Afterwards an id is live exactly when it
    /// was live and reachable from the root set, surviving objects are
    /// unchanged, and nothing else of the machine moves.
    pub fn collect_garbage(&mut self, vm: &mut VM)
        requires
            old(vm).wf(),
        ensures
            final(vm).wf(),
            same_frame_state(*final(vm), *old(vm)),
            final(vm).heap.mem@.len() == old(vm).heap.mem@.len(),
            forall|id: u32|
                final(vm).heap.live(id) <==> (old(vm).heap.live(id) && reachable(
                    old(vm).heap,
                    root_ids(*old(vm)),
                    id,
                )),
            forall|id: u32|
                #[trigger] final(vm).heap.live(id) ==> final(vm).heap.obj(id) == old(vm).heap.obj(
                    id,
                ),
    {
        let ghost vm0 = *vm;
        let ghost roots = root_ids(*vm);
        vm.heap.unmark_all();
        let ghost h0 = vm.heap;
        proof {
            vm.heap.lemma_counts(vm.heap.mem@.len() as int);
            assert forall|id: u32| !marked_live(h0, id) by {
                if h0.live(id) {
                    assert(vm0.heap.live(id));
                }
            }
            assert(mset(h0) =~= Set::<u32>::empty());
        }
        let mut worklist: Vec<u32> = Vec::new();

        // Mark the active frame's closure.
        let ghost hpre0 = vm.heap;
        let ghost wpre0 = worklist@;
        mark_from(&mut vm.heap, &mut worklist, vm.frame.clsr_id);
        proof {
            assert(roots.contains(vm.frame.clsr_id));
            lemma_root_reachable(h0, roots, vm.frame.clsr_id);
            lemma_push_contains(wpre0, worklist@, vm.frame.clsr_id);
            lemma_inv_after_mark(h0, hpre0, vm.heap, roots, wpre0, worklist@, vm.frame.clsr_id);
        }

        // Mark every saved frame's closure.
        let mut i: usize = 0;
        while i < vm.callstack.len()
            invariant
                gc_phase_inv(*vm, vm0, h0, roots, worklist@),
                i <= vm.callstack@.len(),
                forall|j: int|
                    0 <= j < i ==> marked_live(vm.heap, (#[trigger] vm.callstack@[j]).clsr_id),
                marked_live(vm.heap, vm.frame.clsr_id),
            decreases vm.callstack@.len() - i,
        {
            let id = vm.callstack[i].clsr_id;
            proof {
                assert(vm0.frame_wf(vm0.callstack@[i as int]));
                assert(roots.contains(id)) by {
                    assert(vm0.callstack@[i as int].clsr_id == id);
                }
            }
            let ghost hpre = vm.heap;
            let ghost wpre = worklist@;
            mark_from(&mut vm.heap, &mut worklist, id);
            proof {
                lemma_root_reachable(h0, roots, id);
                lemma_push_contains(wpre, worklist@, id);
                lemma_inv_after_mark(h0, hpre, vm.heap, roots, wpre, worklist@, id);
                assert forall|j: int|
                    0 <= j < i + 1 implies marked_live(
                    vm.heap,
                    (#[trigger] vm.callstack@[j]).clsr_id,
                ) by {
                    if j < i {
                        assert(marked_live(hpre, vm.callstack@[j].clsr_id));
                    }
                }
            }
            i = i + 1;
        }

        // Mark every heap reference on the evaluation stack.
        let mut i2: usize = 0;
        while i2 < vm.stack.len()
            invariant
                gc_phase_inv(*vm, vm0, h0, roots, worklist@),
                i2 <= vm.stack@.len(),
                forall|j: int|
                    0 <= j < i2 ==> (#[trigger] vm.stack@[j] matches Value::Heap(id)
                        ==> marked_live(vm.heap, id)),
                forall|j: int|
                    0 <= j < vm.callstack@.len() ==> marked_live(
                        vm.heap,
                        (#[trigger] vm.callstack@[j]).clsr_id,
                    ),
                marked_live(vm.heap, vm.frame.clsr_id),
            decreases vm.stack@.len() - i2,
        {
            let found: Option<u32> = match self_stack_at(vm, i2) {
                Value::Heap(id) => Some(*id),
                _ => None,
            };
            if let Some(id) = found {
                proof {
                    assert(vm0.stack_wf());
                    assert(vm0.value_wf(vm0.stack@[i2 as int]));
                    assert(roots.contains(id)) by {
                        assert(vm0.stack@[i2 as int] == Value::Heap(id));
                        assert(vm0.stack@.contains(Value::Heap(id)));
                    }
                }
                let ghost hpre = vm.heap;
                let ghost wpre = worklist@;
                mark_from(&mut vm.heap, &mut worklist, id);
                proof {
                    lemma_root_reachable(h0, roots, id);
                    lemma_push_contains(wpre, worklist@, id);
                    lemma_inv_after_mark(h0, hpre, vm.heap, roots, wpre, worklist@, id);
                    assert forall|j: int|
                        0 <= j < i2 + 1 implies (#[trigger] vm.stack@[j] matches Value::Heap(jid)
                        ==> marked_live(vm.heap, jid)) by {
                        if j < i2 {
                            match vm.stack@[j] {
                                Value::Heap(jid2) => {
                                    assert(marked_live(hpre, jid2));
                                },
                                _ => {},
                            }
                        }
                    }
                }
            }
            i2 = i2 + 1;
        }

        // Mark every open upvalue.
        let mut i3: usize = 0;
        while i3 < vm.open_upvalues.len()
            invariant
                gc_phase_inv(*vm, vm0, h0, roots, worklist@),
                i3 <= vm.open_upvalues@.len(),
                forall|j: int|
                    0 <= j < i3 ==> marked_live(vm.heap, #[trigger] vm.open_upvalues@[j]),
                forall|j: int|
                    0 <= j < vm.stack@.len() ==> (#[trigger] vm.stack@[j] matches Value::Heap(id)
                        ==> marked_live(vm.heap, id)),
                forall|j: int|
                    0 <= j < vm.callstack@.len() ==> marked_live(
                        vm.heap,
                        (#[trigger] vm.callstack@[j]).clsr_id,
                    ),
                marked_live(vm.heap, vm.frame.clsr_id),
            decreases vm.open_upvalues@.len() - i3,
        {
            let id = vm.open_upvalues[i3];
            proof {
                assert(vm0.open_wf());
                assert(vm0.heap.live(vm0.open_upvalues@[i3 as int]));
                assert(roots.contains(id)) by {
                    assert(vm0.open_upvalues@[i3 as int] == id);
                    assert(vm0.open_upvalues@.contains(id));
                }
            }
            let ghost hpre = vm.heap;
            let ghost wpre = worklist@;
            mark_from(&mut vm.heap, &mut worklist, id);
            proof {
                lemma_root_reachable(h0, roots, id);
                lemma_push_contains(wpre, worklist@, id);
                lemma_inv_after_mark(h0, hpre, vm.heap, roots, wpre, worklist@, id);
                assert forall|j: int|
                    0 <= j < i3 + 1 implies marked_live(
                    vm.heap,
                    #[trigger] vm.open_upvalues@[j],
                ) by {
                    if j < i3 {
                        assert(marked_live(hpre, vm.open_upvalues@[j]));
                    }
                }
            }
            i3 = i3 + 1;
        }

        proof {
            // Every root is now marked.
            assert forall|r: u32| roots.contains(r) implies mset(vm.heap).contains(r) by {
                if vm0.stack@.contains(Value::Heap(r)) {
                    let j = choose|j: int|
                        0 <= j < vm0.stack@.len() && vm0.stack@[j] == Value::Heap(r);
                    assert(vm.stack@[j] matches Value::Heap(id) && id == r);
                } else if vm0.open_upvalues@.contains(r) {
                    let j = choose|j: int|
                        0 <= j < vm0.open_upvalues@.len() && vm0.open_upvalues@[j] == r;
                    assert(vm.open_upvalues@[j] == r);
                }
            }
        }

        // Edges of live objects lead to live ids, now and throughout marking.
        proof {
            assert forall|j: u32, t: u32|
                vm.heap.live(j) && #[trigger] edge_ids(vm.heap.obj(j)).contains(t)
                implies vm.heap.live(t) by {
                assert(vm0.heap.live(j) && vm0.heap.obj(j) == vm.heap.obj(j));
                assert(vm0.obj_wf(vm0.heap.obj(j)));
                lemma_edges_live(vm0, vm0.heap.obj(j), t);
            }
        }

        // Mark transitively until the worklist is drained.
        while worklist.len() > 0
            invariant
                gc_phase_inv(*vm, vm0, h0, roots, worklist@),
                roots.subset_of(mset(vm.heap)),
                forall|j: u32, t: u32|
                    vm.heap.live(j) && #[trigger] edge_ids(vm.heap.obj(j)).contains(t)
                        ==> vm.heap.live(t),
            decreases
                    vm.heap.spec_live_count() - vm.heap.spec_marked_count(),
                    worklist@.len(),
        {
            proof {
                vm.heap.lemma_counts(vm.heap.mem@.len() as int);
            }
            let ghost w_head = worklist@;
            let id = match worklist.pop() {
                Some(x) => x,
                None => {
                    proof {
                        assert(false);
                    }
                    0
                },
            };
            proof {
                assert(w_head =~= worklist@.push(id));
                assert(marked_live(vm.heap, id)) by {
                    assert(w_head[w_head.len() - 1] == id);
                }
            }
            let ghost live_head = vm.heap.spec_live_count();
            let ghost marked_head = vm.heap.spec_marked_count();
            let ghost wlen_after_pop = worklist@.len();
            process_object(&mut vm.heap, &mut worklist, id, Ghost(h0), Ghost(roots));
            proof {
                vm.heap.lemma_counts(vm.heap.mem@.len() as int);
                assert(vm.heap.spec_live_count() == live_head);
                assert(vm.heap.spec_marked_count() >= marked_head);
                if vm.heap.spec_marked_count() == marked_head {
                    assert(worklist@.len() == wlen_after_pop);
                    assert(worklist@.len() < w_head.len());
                }
            }
        }

        proof {
            // The marked set contains the roots and is closed under edges.
            assert(closed_set(h0, mset(vm.heap))) by {
                assert forall|id: u32|
                    #[trigger] mset(vm.heap).contains(id) && h0.live(id) implies edge_ids(
                    h0.obj(id),
                ).subset_of(mset(vm.heap)) by {
                    assert(marked_live(vm.heap, id));
                    assert(!worklist@.contains(id)) by {
                        if worklist@.contains(id) {
                            let kx = choose|kx: int|
                                0 <= kx < worklist@.len() && worklist@[kx] == id;
                        }
                    }
                    assert(vm.heap.obj(id) == h0.obj(id));
                }
            }
        }
        let ghost hmarked = vm.heap;
        vm.heap.sweep_unmarked();
        proof {
            lemma_final_state(*vm, vm0, h0, hmarked, roots);
        }
    }
}

/// The running invariant of both marking phases: the machine's non-heap
/// state is untouched, liveness and objects are untouched, every queued id
/// is marked, every marked id not queued has marked successors, and every
/// marked id belongs to each closed superset of the roots.
pub open spec fn gc_phase_inv(vm: VM, vm0: VM, h0: Heap, roots: Set<u32>, w: Seq<u32>) -> bool {
    &&& vm0.wf()
    &&& same_frame_state(vm, vm0)
    &&& roots == root_ids(vm0)
    &&& same_live_objs(vm.heap, h0)
    &&& same_live_objs(h0, vm0.heap)
    &&& vm.heap.mem@.len() == h0.mem@.len()
    &&& vm.heap.mem@.len() == vm0.heap.mem@.len()
    &&& vm.heap.mem@.len() <= u32::MAX as int
    &&& forall|k: int| 0 <= k < w.len() ==> marked_live(vm.heap, #[trigger] w[k])
    &&& forall|j: u32|
        #[trigger] marked_live(vm.heap, j) && !w.contains(j) ==> edge_ids(vm.heap.obj(j)).subset_of(
            mset(vm.heap),
        )
    &&& forall|s: Set<u32>|
        roots.subset_of(s) && #[trigger] closed_set(h0, s) ==> mset(vm.heap).subset_of(s)
}

/// Marking one reachable id preserves the marking invariants: queued ids
/// stay marked, processed ids keep marked successors, and the marked set
/// stays inside every closed superset of the roots.
proof fn lemma_inv_after_mark(
    h0: Heap,
    hpre: Heap,
    hpost: Heap,
    roots: Set<u32>,
    wpre: Seq<u32>,
    wpost: Seq<u32>,
    id: u32,
)
    requires
        same_live_objs(hpre, h0),
        forall|k: int| 0 <= k < wpre.len() ==> marked_live(hpre, #[trigger] wpre[k]),
        forall|j: u32|
            #[trigger] marked_live(hpre, j) && !wpre.contains(j) ==> edge_ids(
                hpre.obj(j),
            ).subset_of(mset(hpre)),
        forall|s: Set<u32>|
            roots.subset_of(s) && #[trigger] closed_set(h0, s) ==> mset(hpre).subset_of(s),
        same_live_objs(hpost, hpre),
        forall|j: u32| j != id && hpre.live(j) ==> hpost.marked(j) == hpre.marked(j),
        marked_live(hpost, id),
        hpre.live(id),
        mset(hpost) == mset(hpre).insert(id),
        hpre.marked(id) ==> hpost == hpre,
        !hpre.marked(id) ==> wpost.contains(id),
        forall|j: u32| wpre.contains(j) ==> wpost.contains(j),
        forall|k: int| 0 <= k < wpost.len() ==> wpost[k] == id || wpre.contains(#[trigger] wpost[k]),
        reachable(h0, roots, id),
    ensures
        same_live_objs(hpost, h0),
        forall|k: int| 0 <= k < wpost.len() ==> marked_live(hpost, #[trigger] wpost[k]),
        forall|j: u32|
            #[trigger] marked_live(hpost, j) && !wpost.contains(j) ==> edge_ids(
                hpost.obj(j),
            ).subset_of(mset(hpost)),
        forall|s: Set<u32>|
            roots.subset_of(s) && #[trigger] closed_set(h0, s) ==> mset(hpost).subset_of(s),
{
    assert forall|k: int| 0 <= k < wpost.len() implies marked_live(hpost, #[trigger] wpost[k]) by {
        if wpost[k] != id {
            assert(wpre.contains(wpost[k]));
            let kx = choose|kx: int| 0 <= kx < wpre.len() && wpre[kx] == wpost[k];
            assert(marked_live(hpre, wpre[kx]));
        }
    }
    assert forall|j: u32|
        #[trigger] marked_live(hpost, j) && !wpost.contains(j) implies edge_ids(
        hpost.obj(j),
    ).subset_of(mset(hpost)) by {
        if j == id {
            assert(hpre.marked(id));
            assert(marked_live(hpre, j));
            assert(edge_ids(hpre.obj(j)).subset_of(mset(hpre)));
            assert(mset(hpre).subset_of(mset(hpost)));
        } else {
            assert(marked_live(hpre, j));
            assert(!wpre.contains(j));
            assert(edge_ids(hpre.obj(j)).subset_of(mset(hpre)));
            assert(hpost.obj(j) == hpre.obj(j));
            assert(mset(hpre).subset_of(mset(hpost)));
        }
    }
    assert forall|s: Set<u32>|
        roots.subset_of(s) && #[trigger] closed_set(h0, s) implies mset(hpost).subset_of(s) by {
        assert(mset(hpre).subset_of(s));
        assert(s.contains(id));
    }
}

/// In a well-formed machine every edge of a live object leads to a live id.
proof fn lemma_edges_live(vm: VM, o: ObjType, t: u32)
    requires
        vm.wf(),
        vm.obj_wf(o),
        edge_ids(o).contains(t),
    ensures
        vm.heap.live(t),
{
    match o {
        ObjType::Closure(c) => {
            let k = choose|k: int| 0 <= k < c.upvalues@.len() && c.upvalues@[k] == t;
            assert(vm.heap.live(c.upvalues@[k]));
        },
        ObjType::UpValue(u) => {
            assert(u.loc matches UpValueLocation::Heap(cell) && cell == t);
        },
        ObjType::BoxedValue(v) => {
            assert(v matches Value::Heap(id) && id == t);
        },
    }
}

/// Reads stack slot `i` of the machine.
fn self_stack_at(vm: &VM, i: usize) -> (r: &Value)
    requires
        (i as int) < vm.stack@.len(),
    ensures
        *r == vm.stack@[i as int],
{
    &vm.stack[i]
}

/// Facts about queue growth: pushing preserves membership and adds only the
/// pushed id.
proof fn lemma_push_contains(wpre: Seq<u32>, wpost: Seq<u32>, id: u32)
    requires
        wpost == wpre.push(id) || wpost == wpre,
    ensures
        wpost == wpre.push(id) ==> wpost.contains(id),
        forall|j: u32| wpre.contains(j) ==> wpost.contains(j),
        forall|k: int| 0 <= k < wpost.len() ==> wpost[k] == id || wpre.contains(#[trigger] wpost[k]),
{
    if wpost == wpre.push(id) {
        assert(wpost[wpost.len() - 1] == id);
    }
    assert forall|j: u32| wpre.contains(j) implies wpost.contains(j) by {
        let kx = choose|kx: int| 0 <= kx < wpre.len() && wpre[kx] == j;
        assert(wpost[kx] == j);
    }
    assert forall|k: int| 0 <= k < wpost.len() implies wpost[k] == id || wpre.contains(
        #[trigger] wpost[k],
    ) by {
        if k < wpre.len() {
            assert(wpost[k] == wpre[k]);
            assert(wpre.contains(wpost[k]));
        }
    }
}

/// Marks everything the already-marked, just-dequeued `id` refers to,
/// queueing what was freshly marked.  Afterwards the marking invariants hold
/// of the shortened queue: in particular `id` itself no longer needs to be
/// queued, since all its successors are marked.
#[verifier::spinoff_prover]
fn process_object(
    h: &mut Heap,
    w: &mut Vec<u32>,
    id: u32,
    Ghost(h0): Ghost<Heap>,
    Ghost(roots): Ghost<Set<u32>>,
)
    requires
        marked_live(*old(h), id),
        same_live_objs(*old(h), h0),
        old(h).mem@.len() == h0.mem@.len(),
        old(h).mem@.len() <= u32::MAX as int,
        forall|k: int| 0 <= k < old(w)@.len() ==> marked_live(*old(h), #[trigger] old(w)@[k]),
        forall|j: u32|
            #[trigger] marked_live(*old(h), j) && !old(w)@.push(id).contains(j) ==> edge_ids(
                old(h).obj(j),
            ).subset_of(mset(*old(h))),
        forall|s: Set<u32>|
            roots.subset_of(s) && #[trigger] closed_set(h0, s) ==> mset(*old(h)).subset_of(s),
        roots.subset_of(mset(*old(h))),
        forall|j: u32, t: u32|
            old(h).live(j) && #[trigger] edge_ids(old(h).obj(j)).contains(t) ==> old(h).live(t),
    ensures
        final(h).mem@.len() == old(h).mem@.len(),
        same_live_objs(*final(h), h0),
        forall|k: int| 0 <= k < final(w)@.len() ==> marked_live(*final(h), #[trigger] final(w)@[k]),
        forall|j: u32|
            #[trigger] marked_live(*final(h), j) && !final(w)@.contains(j) ==> edge_ids(
                final(h).obj(j),
            ).subset_of(mset(*final(h))),
        forall|s: Set<u32>|
            roots.subset_of(s) && #[trigger] closed_set(h0, s) ==> mset(*final(h)).subset_of(s),
        roots.subset_of(mset(*final(h))),
        forall|j: u32, t: u32|
            final(h).live(j) && #[trigger] edge_ids(final(h).obj(j)).contains(t)
                ==> final(h).live(t),
        final(h).spec_live_count() == old(h).spec_live_count(),
        old(h).spec_marked_count() <= final(h).spec_marked_count(),
        final(h).spec_marked_count() == old(h).spec_marked_count() ==> final(w)@.len() == old(
            w,
        )@.len(),
{
    let targets = edge_targets(h.get(id));
    let ghost w_snapshot = w@;
    let ghost h_snapshot = *h;
    let mut k: usize = 0;
    while k < targets.len()
        invariant
            marked_live(*h, id),
            same_live_objs(*h, h0),
            h.mem@.len() == h_snapshot.mem@.len(),
            h_snapshot.mem@.len() == h0.mem@.len(),
            h.mem@.len() <= u32::MAX as int,
            forall|k2: int| 0 <= k2 < w@.len() ==> marked_live(*h, #[trigger] w@[k2]),
            forall|j: u32|
                #[trigger] marked_live(*h, j) && !w@.push(id).contains(j) ==> edge_ids(
                    h.obj(j),
                ).subset_of(mset(*h)),
            forall|s: Set<u32>|
                roots.subset_of(s) && #[trigger] closed_set(h0, s) ==> mset(*h).subset_of(s),
            roots.subset_of(mset(*h)),
            forall|j: u32, t: u32|
                h.live(j) && #[trigger] edge_ids(h.obj(j)).contains(t) ==> h.live(t),
            k <= targets@.len(),
            h_snapshot.live(id),
            h.obj(id) == h_snapshot.obj(id),
            forall|x: u32| targets@.contains(x) == edge_ids(h_snapshot.obj(id)).contains(x),
            forall|j: int| 0 <= j < k ==> marked_live(*h, #[trigger] targets@[j]),
            w_snapshot.len() <= w@.len(),
            forall|j: int| 0 <= j < w_snapshot.len() ==> w@[j] == #[trigger] w_snapshot[j],
            h_snapshot.spec_marked_count() <= h.spec_marked_count(),
            h.spec_live_count() == h_snapshot.spec_live_count(),
            w@.len() == w_snapshot.len() ==> h.spec_marked_count()
                == h_snapshot.spec_marked_count(),
            w@.len() > w_snapshot.len() ==> h.spec_marked_count()
                > h_snapshot.spec_marked_count(),
        decreases targets@.len() - k,
    {
        let t = targets[k];
        proof {
            assert(targets@.contains(t)) by {
                assert(targets@[k as int] == t);
            }
            assert(edge_ids(h.obj(id)).contains(t));
            assert(h.live(t));
            // id is marked, hence inside every closed superset of the roots,
            // hence reachable; so its edge t is reachable too.
            assert(reachable(h0, roots, id)) by {
                assert forall|s: Set<u32>|
                    roots.subset_of(s) && #[trigger] closed_set(h0, s) implies s.contains(id) by {
                    assert(mset(*h).subset_of(s));
                    assert(mset(*h).contains(id));
                }
            }
            assert(h0.live(id) && h0.obj(id) == h.obj(id));
            lemma_reachable_edge(h0, roots, id, t);
        }
        let ghost hpre = *h;
        let ghost wpre = w@.push(id);
        mark_from(h, w, t);
        proof {
            let wpost = w@.push(id);
            if !hpre.marked(t) {
                assert(w@ == wpre.drop_last().push(t));
                assert(wpost[w@.len() - 1] == t);
                assert(wpost.contains(t));
            }
            assert forall|j: u32| wpre.contains(j) implies wpost.contains(j) by {
                let kx = choose|kx: int| 0 <= kx < wpre.len() && wpre[kx] == j;
                if kx < wpre.len() - 1 {
                    assert(wpost[kx] == j);
                } else {
                    assert(wpost[wpost.len() - 1] == j);
                }
            }
            assert forall|kx: int| 0 <= kx < wpost.len() implies wpost[kx] == t || wpre.contains(
                #[trigger] wpost[kx],
            ) by {
                if !hpre.marked(t) {
                    if kx == w@.len() - 1 {
                    } else if kx == wpost.len() - 1 {
                        assert(wpre[wpre.len() - 1] == id);
                        assert(wpre.contains(wpost[kx]));
                    } else {
                        assert(wpost[kx] == wpre[kx]);
                        assert(wpre.contains(wpost[kx]));
                    }
                } else {
                    assert(wpost[kx] == wpre[kx]);
                    assert(wpre.contains(wpost[kx]));
                }
            }
            lemma_inv_after_mark(h0, hpre, *h, roots, wpre, wpost, t);
            assert forall|j: int| 0 <= j < k + 1 implies marked_live(
                *h,
                #[trigger] targets@[j],
            ) by {
                if j < k {
                    assert(marked_live(hpre, targets@[j]));
                }
            }
        }
        k = k + 1;
    }
    proof {
        // id has been fully processed: all of its edges are marked, so the
        // invariant holds of the queue without it.
        assert forall|j: u32|
            #[trigger] marked_live(*h, j) && !w@.contains(j) implies edge_ids(h.obj(j)).subset_of(
            mset(*h),
        ) by {
            if j == id {
                assert forall|t: u32| edge_ids(h.obj(id)).contains(t) implies mset(*h).contains(
                    t,
                ) by {
                    assert(targets@.contains(t));
                    let jx = choose|jx: int| 0 <= jx < targets@.len() && targets@[jx] == t;
                    assert(marked_live(*h, targets@[jx]));
                }
            } else {
                assert(!w@.push(id).contains(j)) by {
                    if w@.push(id).contains(j) {
                        let jx = choose|jx: int|
                            0 <= jx < w@.push(id).len() && w@.push(id)[jx] == j;
                        assert(jx < w@.len());
                        assert(w@[jx] == j);
                    }
                }
            }
        }
    }
}

/// After the sweep, survivors are exactly the ids that were live and
/// reachable, their objects are unchanged, and the machine is well formed.
#[verifier::spinoff_prover]
proof fn lemma_final_state(vmf: VM, vm0: VM, h0: Heap, hmarked: Heap, roots: Set<u32>)
    requires
        vm0.wf(),
        roots == root_ids(vm0),
        same_frame_state(vmf, vm0),
        same_live_objs(hmarked, h0),
        same_live_objs(h0, vm0.heap),
        hmarked.mem@.len() == h0.mem@.len(),
        h0.mem@.len() == vm0.heap.mem@.len(),
        vm0.heap.mem@.len() <= u32::MAX as int,
        closed_set(h0, mset(hmarked)),
        roots.subset_of(mset(hmarked)),
        forall|s: Set<u32>|
            roots.subset_of(s) && #[trigger] closed_set(h0, s) ==> mset(hmarked).subset_of(s),
        vmf.heap.mem@.len() == hmarked.mem@.len(),
        forall|j: u32| vmf.heap.live(j) == (hmarked.live(j) && hmarked.marked(j)),
        forall|j: u32| #[trigger] vmf.heap.live(j) ==> vmf.heap.obj(j) == hmarked.obj(j),
    ensures
        vmf.wf(),
        forall|id: u32|
            vmf.heap.live(id) <==> (vm0.heap.live(id) && reachable(vm0.heap, roots, id)),
        forall|id: u32|
            #[trigger] vmf.heap.live(id) ==> vmf.heap.obj(id) == vm0.heap.obj(id),
{
    let marked_set = mset(hmarked);
    lemma_reachable_same(h0, vm0.heap, roots);
    assert forall|id: u32|
        vmf.heap.live(id) <==> (vm0.heap.live(id) && reachable(vm0.heap, roots, id)) by {
        if vmf.heap.live(id) {
            assert(hmarked.live(id) && hmarked.marked(id));
            assert(marked_set.contains(id));
            assert(reachable(h0, roots, id)) by {
                assert forall|s: Set<u32>|
                    roots.subset_of(s) && #[trigger] closed_set(h0, s) implies s.contains(id) by {
                    assert(marked_set.subset_of(s));
                }
            }
            assert(vm0.heap.live(id));
        }
        if vm0.heap.live(id) && reachable(vm0.heap, roots, id) {
            assert(reachable(h0, roots, id));
            assert(marked_set.contains(id));
            assert(hmarked.live(id));
            assert(vmf.heap.live(id));
        }
    }
    assert forall|id: u32| #[trigger] vmf.heap.live(id) implies vmf.heap.obj(id) == vm0.heap.obj(
        id,
    ) by {
        assert(hmarked.live(id));
        assert(vmf.heap.obj(id) == hmarked.obj(id));
    }
    assert(vmf.frames_wf()) by {
        assert(roots.contains(vm0.frame.clsr_id));
        lemma_root_reachable(vm0.heap, roots, vm0.frame.clsr_id);
        assert(vm0.frame_wf(vm0.frame));
        assert(vmf.heap.live(vmf.frame.clsr_id));
        assert forall|i: int| 0 <= i < vmf.callstack@.len() implies vmf.frame_wf(
            #[trigger] vmf.callstack@[i],
        ) by {
            assert(vm0.frame_wf(vm0.callstack@[i]));
            assert(roots.contains(vm0.callstack@[i].clsr_id)) by {
                assert(vm0.callstack@[i].clsr_id == vm0.callstack@[i].clsr_id);
            }
            lemma_root_reachable(vm0.heap, roots, vm0.callstack@[i].clsr_id);
        }
    }
    assert(vmf.heap_wf()) by {
        assert forall|id: u32| #[trigger] vmf.heap.live(id) implies vmf.obj_wf(
            vmf.heap.obj(id),
        ) by {
            assert(vm0.heap.live(id));
            assert(vm0.obj_wf(vm0.heap.obj(id)));
            assert(reachable(vm0.heap, roots, id));
            assert forall|t: u32| edge_ids(vm0.heap.obj(id)).contains(t) implies vmf.heap.live(
                t,
            ) by {
                lemma_edges_live(vm0, vm0.heap.obj(id), t);
                lemma_reachable_edge(vm0.heap, roots, id, t);
            }
            match vm0.heap.obj(id) {
                ObjType::Closure(c) => {
                    assert forall|kk: int| 0 <= kk < c.upvalues@.len() implies vmf.heap.live(
                        #[trigger] c.upvalues@[kk],
                    ) && vmf.heap.obj(c.upvalues@[kk]) is UpValue by {
                        assert(c.upvalues@.contains(c.upvalues@[kk]));
                        assert(edge_ids(vm0.heap.obj(id)).contains(c.upvalues@[kk]));
                        assert(vm0.heap.obj(c.upvalues@[kk]) is UpValue);
                    }
                },
                ObjType::UpValue(u) => {
                    match u.loc {
                        UpValueLocation::Heap(cell) => {
                            assert(edge_ids(vm0.heap.obj(id)).contains(cell));
                        },
                        UpValueLocation::Stack(_) => {},
                    }
                },
                ObjType::BoxedValue(v) => {
                    match v {
                        Value::Heap(hid) => {
                            assert(edge_ids(vm0.heap.obj(id)).contains(hid));
                        },
                        _ => {},
                    }
                },
            }
        }
    }
    assert(vmf.stack_wf()) by {
        assert forall|i: int| 0 <= i < vmf.stack@.len() implies vmf.value_wf(
            #[trigger] vmf.stack@[i],
        ) by {
            match vmf.stack@[i] {
                Value::Heap(id) => {
                    assert(vm0.stack@.contains(Value::Heap(id))) by {
                        assert(vm0.stack@[i] == Value::Heap(id));
                    }
                    assert(roots.contains(id));
                    lemma_root_reachable(vm0.heap, roots, id);
                    assert(vm0.value_wf(vm0.stack@[i]));
                },
                _ => {},
            }
        }
    }
    assert(vmf.open_complete()) by {
        assert forall|id: u32|
            #[trigger] vmf.heap.live(id) && (vmf.heap.obj(id) matches ObjType::UpValue(u)
                && u.loc is Stack) implies vmf.open_upvalues@.contains(id) by {
            assert(vm0.heap.live(id));
            assert(vm0.heap.obj(id) == vmf.heap.obj(id));
        }
    }
    assert(vmf.open_wf()) by {
        assert forall|kk: int| 0 <= kk < vmf.open_upvalues@.len() implies {
            &&& vmf.heap.live(#[trigger] vmf.open_upvalues@[kk])
            &&& vmf.heap.obj(vmf.open_upvalues@[kk]) is UpValue
        } by {
            let id = vmf.open_upvalues@[kk];
            assert(roots.contains(id)) by {
                assert(vm0.open_upvalues@[kk] == id);
                assert(vm0.open_upvalues@.contains(id));
            }
            lemma_root_reachable(vm0.heap, roots, id);
            assert(vm0.heap.live(id));
            assert(vm0.heap.obj(id) is UpValue);
        }
    }
}

} // verus!
