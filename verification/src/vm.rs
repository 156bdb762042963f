//! The interpreter: evaluation stack, call stack, open-upvalue list, and the
//! fetch-decode-execute loop.

use crate::chunk::{Chunk, Function};
use crate::error::ErrorKind;
use crate::gc::GC;
use crate::heap::{Closure, Heap, ObjType, UpValue, UpValueLocation};
use crate::instruction::{Instruction, UpValueIndex};
use crate::num;
use crate::text;
use crate::value::Value;
use vstd::prelude::*;
use vstd::string::StringExecFns;

verus! {

/// The collector's bootstrap threshold: the heap size that triggers the
/// first collection.
pub const GC_THR_START: usize = 8000;

/// An arithmetic operation only the embedder can compute: IEEE-754 double
/// arithmetic on bit patterns.
#[derive(Debug, Clone, Copy, PartialEq, Eq, Structural)]
pub enum HostOp {
    Add,
    Sub,
    Mul,
    Div,
}

/// What the interpreter cannot compute itself and receives from its
/// embedder: double-precision arithmetic on bit patterns, and the two
/// conversions between numbers and text.  The interpreter is verified for
/// every possible answer; nothing is assumed of an implementation.
pub trait Host {
    /// The bit pattern of `op` applied to the doubles with patterns `a`, `b`.
    fn arith(&mut self, op: HostOp, a: u64, b: u64) -> u64;

    /// The bit pattern of the double that `s` spells, if any.
    fn parse_num(&mut self, s: &str) -> Option<u64>;

    /// The canonical text of the double with pattern `b`.
    fn format_num(&mut self, b: u64) -> String;
}

/// An execution context: the running closure, the index of the next
/// instruction, and the absolute stack index of the frame's slot zero.
#[derive(Debug, Clone, Copy, PartialEq, Eq, Structural)]
pub struct CallFrame {
    pub clsr_id: u32,
    pub cur_instr: usize,
    pub stack_base: usize,
}

/// How a run ended: the program returned from its outermost frame, a fault
/// aborted it, or the step budget ran out first.
#[derive(Debug, Clone, Copy, PartialEq, Eq, Structural)]
pub enum ExecStatus {
    Done,
    Fault(ErrorKind),
    OutOfSteps,
}

/// The virtual machine.
pub struct VM {
    /// The immutable function table; entry 0 is the top-level function.
    pub functions: Vec<Function>,
    /// The active frame.
    pub frame: CallFrame,
    /// Saved frames, callers below callees.
    pub callstack: Vec<CallFrame>,
    /// Ids of upvalues that still point into the evaluation stack.
    pub open_upvalues: Vec<u32>,
    /// The evaluation stack.
    pub stack: Vec<Value>,
    /// The managed heap.
    pub heap: Heap,
    /// Collection runs when the heap has grown past this many ids.
    pub gc_thr: usize,
    /// Lines written by `Trace`, in order.
    pub trace_out: Vec<String>,
    /// Ask for diagnostic dumps: the core only carries the flag, the
    /// embedder decides what to show between steps.
    pub debug: bool,
}

impl VM {
    /// A closure is well formed: its function exists and its upvalues are
    /// live upvalue objects.
    pub open spec fn closure_wf(self, c: Closure) -> bool {
        &&& (c.fn_idx as int) < self.functions@.len()
        &&& forall|k: int|
            0 <= k < c.upvalues@.len() ==> self.heap.live(#[trigger] c.upvalues@[k])
                && self.heap.obj(c.upvalues@[k]) is UpValue
    }

    /// An upvalue is well formed: a closed one owns a live boxed cell.  An
    /// open one names a stack slot; whether the slot is in range is checked
    /// where the slot is read or written.
    pub open spec fn upvalue_wf(self, u: UpValue) -> bool {
        match u.loc {
            UpValueLocation::Stack(_) => true,
            UpValueLocation::Heap(cell) => self.heap.live(cell) && self.heap.obj(
                cell,
            ) is BoxedValue,
        }
    }

    /// A value is well formed when any heap id in it is live.
    pub open spec fn value_wf(self, v: Value) -> bool {
        v matches Value::Heap(id) ==> self.heap.live(id)
    }

    /// A heap object is well formed.
    pub open spec fn obj_wf(self, o: ObjType) -> bool {
        match o {
            ObjType::Closure(c) => self.closure_wf(c),
            ObjType::UpValue(u) => self.upvalue_wf(u),
            ObjType::BoxedValue(v) => self.value_wf(v),
        }
    }

    /// Every live heap object is well formed.
    pub open spec fn heap_wf(self) -> bool {
        forall|id: u32| #[trigger] self.heap.live(id) ==> self.obj_wf(self.heap.obj(id))
    }

    /// A frame is well formed: it runs a live closure and its base is within
    /// the stack.
    pub open spec fn frame_wf(self, f: CallFrame) -> bool {
        &&& self.heap.live(f.clsr_id)
        &&& self.heap.obj(f.clsr_id) is Closure
        &&& f.stack_base <= self.stack@.len()
    }

    /// The active and the saved frames are well formed and their bases do
    /// not decrease towards the active frame.
    pub open spec fn frames_wf(self) -> bool {
        &&& self.frame_wf(self.frame)
        &&& forall|i: int| 0 <= i < self.callstack@.len() ==> self.frame_wf(#[trigger] self.callstack@[i])
        &&& forall|i: int, j: int|
            0 <= i <= j < self.callstack@.len() ==> (#[trigger] self.callstack@[i]).stack_base
                <= (#[trigger] self.callstack@[j]).stack_base
        &&& forall|i: int|
            0 <= i < self.callstack@.len() ==> (#[trigger] self.callstack@[i]).stack_base
                <= self.frame.stack_base
    }

    /// Every stack slot is well formed.
    pub open spec fn stack_wf(self) -> bool {
        forall|i: int| 0 <= i < self.stack@.len() ==> self.value_wf(#[trigger] self.stack@[i])
    }

    /// Every entry of the open-upvalue list is a live upvalue.
    pub open spec fn open_wf(self) -> bool {
        forall|k: int|
            0 <= k < self.open_upvalues@.len() ==> {
                &&& self.heap.live(#[trigger] self.open_upvalues@[k])
                &&& self.heap.obj(self.open_upvalues@[k]) is UpValue
            }
    }

    /// Every live upvalue that still points into the stack is registered on
    /// the open-upvalue list.
    pub open spec fn open_complete(self) -> bool {
        forall|id: u32|
            #[trigger] self.heap.live(id) && (self.heap.obj(id) matches ObjType::UpValue(u)
                && u.loc is Stack) ==> self.open_upvalues@.contains(id)
    }

    /// Every function of the table is well formed.
    pub open spec fn funcs_wf(self) -> bool {
        forall|i: int| 0 <= i < self.functions@.len() ==> (#[trigger] self.functions@[i]).wf()
    }

    /// The machine invariant, preserved by every step: well-formed heap,
    /// frames, stack, open-upvalue list and function table.  In particular
    /// the stack never shrinks below the active frame's base, and no open
    /// upvalue points past the top of the stack.
    pub open spec fn wf(self) -> bool {
        &&& self.heap.mem@.len() <= u32::MAX as int
        &&& self.frames_wf()
        &&& self.heap_wf()
        &&& self.stack_wf()
        &&& self.open_wf()
        &&& self.open_complete()
        &&& self.funcs_wf()
    }

    /// The closure the active frame runs.
    pub open spec fn cur_closure(self) -> Closure {
        self.heap.obj(self.frame.clsr_id)->Closure_0
    }

    /// The chunk the active frame executes.
    pub open spec fn cur_chunk(self) -> Chunk {
        self.functions@[self.cur_closure().fn_idx as int].chunk
    }

    /// The instruction about to be dispatched, if any.
    pub open spec fn fetched(self) -> Option<Instruction> {
        if self.frame.cur_instr < self.cur_chunk().code@.len() {
            Some(self.cur_chunk().code@[self.frame.cur_instr as int])
        } else {
            None
        }
    }

    /// A machine over the top-level chunk `chk`, stopped at its first
    /// instruction with an empty stack.
    pub fn new(chk: Chunk, debug: bool) -> (vm: VM)
        requires
            chk.wf(),
        ensures
            vm.wf(),
            vm.stack@.len() == 0,
            vm.callstack@.len() == 0,
            vm.open_upvalues@.len() == 0,
            vm.trace_out@.len() == 0,
            vm.frame.cur_instr == 0,
            vm.frame.stack_base == 0,
            vm.functions@.len() == 1,
            vm.functions@[0].chunk == chk,
            vm.gc_thr == GC_THR_START,
            vm.debug == debug,
    {
        let mut heap = Heap::new();
        let root = heap.allocate(ObjType::Closure(Closure { fn_idx: 0, upvalues: Vec::new() }));
        let clsr_id = match root {
            Some(id) => id,
            None => {
                proof {
                    assert(false);
                }
                0
            },
        };
        let mut functions: Vec<Function> = Vec::new();
        functions.push(Function::from_chunk(chk));
        VM {
            functions,
            frame: CallFrame { clsr_id, cur_instr: 0, stack_base: 0 },
            callstack: Vec::new(),
            open_upvalues: Vec::new(),
            stack: Vec::new(),
            heap,
            gc_thr: GC_THR_START,
            trace_out: Vec::new(),
            debug,
        }
    }

    /// Registers a further function (one the `Closure` instruction can name)
    /// and answers its index in the table.
    pub fn add_function(&mut self, f: Function) -> (r: u16)
        requires
            f.wf(),
            old(self).functions@.len() < u16::MAX as int,
            old(self).wf(),
        ensures
            final(self).wf(),
            final(self).functions@ == old(self).functions@.push(f),
            r as int == old(self).functions@.len(),
            final(self).stack@ == old(self).stack@,
            final(self).heap == old(self).heap,
            final(self).frame == old(self).frame,
            final(self).callstack@ == old(self).callstack@,
            final(self).open_upvalues@ == old(self).open_upvalues@,
            final(self).trace_out@ == old(self).trace_out@,
    {
        let r = self.functions.len() as u16;
        self.functions.push(f);
        r
    }

    /// The value in stack slot `id`.
    pub fn get_stack(&self, id: u16) -> (r: &Value)
        requires
            (id as int) < self.stack@.len(),
        ensures
            *r == self.stack@[id as int],
    {
        &self.stack[id as usize]
    }

    /// The function-table index the active frame runs.
    fn cur_fn_idx(&self) -> (r: u16)
        requires
            self.wf(),
        ensures
            r == self.cur_closure().fn_idx,
            (r as int) < self.functions@.len(),
    {
        match self.heap.get(self.frame.clsr_id) {
            ObjType::Closure(c) => c.fn_idx,
            _ => {
                proof {
                    assert(false);
                }
                0
            },
        }
    }

    /// Fetches the next instruction and advances the program counter.  Past
    /// the end of the code nothing changes, the counter included: this
    /// deliberately differs from advancing unconditionally, and the machine
    /// faults on the very next dispatch either way.
    fn next_instr(&mut self) -> (r: Option<Instruction>)
        requires
            old(self).wf(),
        ensures
            final(self).wf(),
            r == old(self).fetched(),
            final(self).stack@ == old(self).stack@,
            final(self).heap == old(self).heap,
            final(self).callstack@ == old(self).callstack@,
            final(self).open_upvalues@ == old(self).open_upvalues@,
            final(self).functions@ == old(self).functions@,
            final(self).trace_out@ == old(self).trace_out@,
            final(self).gc_thr == old(self).gc_thr,
            final(self).debug == old(self).debug,
            final(self).frame.clsr_id == old(self).frame.clsr_id,
            final(self).frame.stack_base == old(self).frame.stack_base,
            r is Some ==> final(self).frame.cur_instr == old(self).frame.cur_instr + 1,
            r is None ==> final(self).frame == old(self).frame,
    {
        let fn_idx = self.cur_fn_idx();
        let code_len = self.functions[fn_idx as usize].chunk.code.len();
        let r = self.functions[fn_idx as usize].chunk.try_get_instr(self.frame.cur_instr);
        if r.is_some() {
            proof {
                assert(self.frame.cur_instr < code_len);
            }
            self.frame.cur_instr = self.frame.cur_instr + 1;
        }
        r
    }

    /// Pops the top of the stack, if there is one.
    fn pop_stack(&mut self) -> (r: Option<Value>)
        ensures
            old(self).stack@.len() > 0 ==> r == Some(old(self).stack@.last()) && final(self).stack@
                == old(self).stack@.drop_last(),
            old(self).stack@.len() == 0 ==> r is None && final(self).stack@ == old(self).stack@,
            final(self).heap == old(self).heap,
            final(self).frame == old(self).frame,
            final(self).callstack@ == old(self).callstack@,
            final(self).open_upvalues@ == old(self).open_upvalues@,
            final(self).functions@ == old(self).functions@,
            final(self).trace_out@ == old(self).trace_out@,
            final(self).gc_thr == old(self).gc_thr,
            final(self).debug == old(self).debug,
    {
        self.stack.pop()
    }

    /// Overwrites stack slot `id`.
    fn set_stack(&mut self, id: usize, val: Value)
        requires
            (id as int) < old(self).stack@.len(),
        ensures
            final(self).stack@ == old(self).stack@.update(id as int, val),
            final(self).heap == old(self).heap,
            final(self).frame == old(self).frame,
            final(self).callstack@ == old(self).callstack@,
            final(self).open_upvalues@ == old(self).open_upvalues@,
            final(self).functions@ == old(self).functions@,
            final(self).trace_out@ == old(self).trace_out@,
            final(self).gc_thr == old(self).gc_thr,
            final(self).debug == old(self).debug,
    {
        self.stack.set(id, val);
    }

    /// The top of the stack.
    fn get_stack_top(&self) -> (r: &Value)
        requires
            self.stack@.len() > 0,
        ensures
            *r == self.stack@.last(),
    {
        &self.stack[self.stack.len() - 1]
    }

    /// Coerces a value to a number's bit pattern: numbers are themselves,
    /// `true` is one, `false` and `Null` are zero, text is parsed by the
    /// host, and everything else fails.
    fn coerce_num<H: Host>(&self, host: &mut H, v: &Value) -> (r: Result<u64, ErrorKind>)
        ensures
            *v matches Value::Number(b) ==> r == Ok::<u64, ErrorKind>(b),
            *v == Value::Bool(true) ==> r == Ok::<u64, ErrorKind>(num::ONE_BITS),
            *v == Value::Bool(false) ==> r == Ok::<u64, ErrorKind>(num::ZERO_BITS),
            *v == Value::Null ==> r == Ok::<u64, ErrorKind>(num::ZERO_BITS),
            v is String ==> r is Ok || r == Err::<u64, ErrorKind>(ErrorKind::TypeCoercion),
            (v is Heap || v is Uninitialized) ==> r == Err::<u64, ErrorKind>(
                ErrorKind::TypeCoercion,
            ),
    {
        match v {
            Value::Number(b) => Ok(*b),
            Value::Bool(true) => Ok(num::ONE_BITS),
            Value::Bool(false) => Ok(num::ZERO_BITS),
            Value::Null => Ok(num::ZERO_BITS),
            Value::String(s) => match host.parse_num(s.as_str()) {
                Some(b) => Ok(b),
                None => Err(ErrorKind::TypeCoercion),
            },
            _ => Err(ErrorKind::TypeCoercion),
        }
    }

    /// The printable text of a value: `null`, `true`, `false`, the string
    /// itself, the host's rendering of a number, or a heap reference as
    /// `<obj N>`.  The reserved placeholder has no text.
    fn value_text<H: Host>(&self, host: &mut H, v: &Value) -> (r: Result<String, ErrorKind>)
        ensures
            *v == Value::Null ==> (r matches Ok(s) && s@ == "null"@),
            *v == Value::Bool(true) ==> (r matches Ok(s) && s@ == "true"@),
            *v == Value::Bool(false) ==> (r matches Ok(s) && s@ == "false"@),
            *v matches Value::String(x) ==> (r matches Ok(s) && s@ == x@),
            v is Number ==> r is Ok,
            *v matches Value::Heap(id) ==> (r matches Ok(s) && s@ == obj_text(id)),
            v is Uninitialized ==> r == Err::<String, ErrorKind>(ErrorKind::TypeCoercion),
    {
        match v {
            Value::Null => Ok("null".to_owned()),
            Value::Bool(true) => Ok("true".to_owned()),
            Value::Bool(false) => Ok("false".to_owned()),
            Value::String(s) => Ok(s.clone()),
            Value::Number(b) => Ok(host.format_num(*b)),
            Value::Heap(id) => {
                let mut s = "<obj ".to_owned();
                text::push_decimal(&mut s, *id as u64);
                s.append(">");
                proof {
                    reveal_strlit("<obj ");
                    reveal_strlit(">");
                    assert(s@ =~= obj_text(*id));
                }
                Ok(s)
            },
            Value::Uninitialized => Err(ErrorKind::TypeCoercion),
        }
    }

    /// Resolves one capture descriptor at a `Closure` instruction: a local
    /// capture allocates a fresh open upvalue over the defining frame's slot
    /// and registers it on the open-upvalue list; a non-local one reuses the
    /// enclosing closure's upvalue.
    fn capture_upvalue(&mut self, idx: UpValueIndex) -> (r: Result<u32, ErrorKind>)
        requires
            old(self).wf(),
        ensures
            final(self).wf(),
            final(self).stack@ == old(self).stack@,
            final(self).frame == old(self).frame,
            final(self).callstack@ == old(self).callstack@,
            final(self).functions@ == old(self).functions@,
            final(self).trace_out@ == old(self).trace_out@,
            final(self).gc_thr == old(self).gc_thr,
            final(self).debug == old(self).debug,
            forall|j: u32|
                old(self).heap.live(j) ==> final(self).heap.live(j) && final(self).heap.obj(j)
                    == old(self).heap.obj(j),
            r matches Ok(id) ==> final(self).heap.live(id) && final(self).heap.obj(
                id,
            ) is UpValue,
            r is Err ==> final(self).heap.mem@ == old(self).heap.mem@
                && final(self).open_upvalues@ == old(self).open_upvalues@,
            r matches Err(k) ==> k == ErrorKind::InternalInvariant,
            // a local capture makes a fresh open upvalue over the defining
            // frame's slot and registers it
            idx.is_local && (old(self).frame.stack_base + idx.id as int) <= u16::MAX as int
                && (old(self).frame.stack_base + idx.id as int) < old(self).stack@.len()
                && old(self).heap.mem@.len() < u32::MAX as int ==> r is Ok,
            idx.is_local ==> (r matches Ok(uid) ==> !old(self).heap.live(uid)
                && uid as int == old(self).heap.mem@.len() && final(self).heap.obj(uid)
                == ObjType::UpValue(
                UpValue { loc: UpValueLocation::Stack((old(self).frame.stack_base + idx.id as int) as u16) },
            ) && final(self).open_upvalues@ == old(self).open_upvalues@.push(uid)
                && final(self).heap.mem@.len() == old(self).heap.mem@.len() + 1),
            // a non-local capture reuses the enclosing closure's upvalue and
            // touches nothing
            !idx.is_local ==> final(self).heap == old(self).heap && final(self).open_upvalues@
                == old(self).open_upvalues@,
            !idx.is_local && (idx.id as int) < old(self).cur_closure().upvalues@.len() ==> r
                == Ok::<u32, ErrorKind>(old(self).cur_closure().upvalues@[idx.id as int]),
            !idx.is_local && (idx.id as int) >= old(self).cur_closure().upvalues@.len() ==> r
                == Err::<u32, ErrorKind>(ErrorKind::InternalInvariant),
    {
        if idx.is_local {
            let base = self.frame.stack_base;
            if base > u16::MAX as usize - idx.id as usize {
                return Err(ErrorKind::InternalInvariant);
            }
            let slot = (base as u16) + idx.id;
            if (slot as usize) >= self.stack.len() {
                return Err(ErrorKind::InternalInvariant);
            }
            let alloc = self.heap.allocate(ObjType::UpValue(UpValue::stack(slot)));
            match alloc {
                Some(uid) => {
                    self.open_upvalues.push(uid);
                    proof {
                        assert forall|k: int|
                            0 <= k < self.open_upvalues@.len() implies {
                            &&& self.heap.live(#[trigger] self.open_upvalues@[k])
                            &&& self.heap.obj(self.open_upvalues@[k]) is UpValue
                        } by {
                            if k < old(self).open_upvalues@.len() {
                                assert(old(self).heap.live(old(self).open_upvalues@[k]));
                            }
                        }
                        assert forall|j: u32| #[trigger] self.heap.live(j) implies self.obj_wf(
                            self.heap.obj(j),
                        ) by {
                            if j != uid {
                                assert(old(self).heap.live(j));
                                assert(old(self).obj_wf(old(self).heap.obj(j)));
                            }
                        }
                        assert forall|j: u32|
                            #[trigger] self.heap.live(j) && (self.heap.obj(j)
                                matches ObjType::UpValue(u) && u.loc is Stack) implies
                            self.open_upvalues@.contains(j) by {
                            if j == uid {
                                assert(self.open_upvalues@.last() == uid);
                            } else {
                                assert(old(self).open_upvalues@.contains(j));
                                let kx = choose|kx: int|
                                    0 <= kx < old(self).open_upvalues@.len() && old(self).open_upvalues@[kx] == j;
                                assert(self.open_upvalues@[kx] == j);
                            }
                        }
                    }
                    proof {
                        assert(self.heap.mem@.len() <= u32::MAX as int);
                        assert(self.frames_wf());
                        assert(self.stack_wf());
                        assert(self.funcs_wf());
                        assert(self.open_wf());
                        assert(self.open_complete());
                        assert(self.heap_wf());
                    }
                    Ok(uid)
                },
                None => {
                    proof {
                        assert(self.heap.mem@ == old(self).heap.mem@);
                        assert(self.heap.mem@.len() <= u32::MAX as int);
                        assert forall|id: u32| self.heap.live(id) == old(self).heap.live(id) && (
                        self.heap.live(id) ==> self.heap.obj(id) == old(self).heap.obj(id)) by {}
                        assert(self.frames_wf());
                        assert(self.heap_wf()) by {
                            assert forall|id: u32| #[trigger] self.heap.live(id) implies self.obj_wf(
                                self.heap.obj(id),
                            ) by {
                                assert(old(self).heap.live(id));
                                assert(old(self).obj_wf(old(self).heap.obj(id)));
                            }
                        }
                        assert(self.stack_wf());
                        assert(self.open_wf());
                        assert(self.open_complete());
                        assert(self.funcs_wf());
                        assert(self.wf());
                    }
                    Err(ErrorKind::InternalInvariant)
                },
            }
        } else {
            let reused = match self.heap.get(self.frame.clsr_id) {
                ObjType::Closure(c) => {
                    if (idx.id as usize) < c.upvalues.len() {
                        Some(c.upvalues[idx.id as usize])
                    } else {
                        None
                    }
                },
                _ => {
                    proof {
                        assert(false);
                    }
                    None
                },
            };
            match reused {
                Some(uid) => {
                    proof {
                        assert(self.closure_wf(self.cur_closure()));
                        assert(self.wf());
                    }
                    Ok(uid)
                },
                None => {
                    proof {
                        assert(self.wf());
                    }
                    Err(ErrorKind::InternalInvariant)
                },
            }
        }
    }

    /// On return from the active frame: every open upvalue whose slot lies
    /// in the returning frame's region is moved to a fresh boxed cell that
    /// holds the slot's current value, upvalues sharing one slot sharing one
    /// cell, and the open-upvalue list keeps exactly the still-open upvalues
    /// of outer frames, unchanged.  Succeeds whenever the machine is
    /// closable: it fails, only ever short of id space or on a corrupt slot,
    /// without touching the list.
    ///
    /// Closing is keyed to the open-upvalue list rather than to the
    /// returning function's `captured` slots: the two agree on every slot an
    /// open upvalue actually names, and a captured slot nobody aliases needs
    /// no cell, so no program can tell the difference.  Nothing but boxed
    /// cells is allocated; upvalues are never created or destroyed here,
    /// they only move from open to closed.
    #[verifier::rlimit(100)]
    #[verifier::spinoff_prover]
    pub fn close_upvalues(&mut self) -> (r: bool)
        requires
            old(self).wf(),
        ensures
            final(self).wf(),
            final(self).stack@ == old(self).stack@,
            final(self).frame == old(self).frame,
            final(self).callstack@ == old(self).callstack@,
            final(self).functions@ == old(self).functions@,
            final(self).trace_out@ == old(self).trace_out@,
            final(self).gc_thr == old(self).gc_thr,
            final(self).debug == old(self).debug,
            forall|j: u32| old(self).heap.live(j) ==> final(self).heap.live(j),
            forall|j: u32|
                old(self).heap.live(j) && !(old(self).heap.obj(j) is UpValue)
                    ==> final(self).heap.obj(j) == old(self).heap.obj(j),
            // only boxed cells are allocated: no upvalue is created
            forall|j: u32|
                #[trigger] final(self).heap.live(j) && !old(self).heap.live(j)
                    ==> final(self).heap.obj(j) is BoxedValue,
            closable(*old(self)) ==> r,
            r ==> forall|k: int|
                0 <= k < final(self).open_upvalues@.len()
                    ==> (final(self).heap.obj(#[trigger] final(self).open_upvalues@[k])
                    matches ObjType::UpValue(u) && u.loc matches UpValueLocation::Stack(slot)
                    && (slot as int) < old(self).frame.stack_base),
            // a closed upvalue owns a cell holding its slot's old value; an
            // outer frame's upvalue is untouched and stays on the list
            r ==> forall|id: u32|
                #[trigger] old(self).open_upvalues@.contains(id) ==> (old(self).heap.obj(id)
                    matches ObjType::UpValue(u) ==> (u.loc matches UpValueLocation::Stack(slot)
                    ==> {
                    &&& ((slot as int) >= old(self).frame.stack_base ==> (final(self).heap.obj(id)
                        matches ObjType::UpValue(u2) && u2.loc matches UpValueLocation::Heap(cell)
                        && final(self).heap.live(cell) && final(self).heap.obj(cell)
                        == ObjType::BoxedValue(old(self).stack@[slot as int])))
                    &&& ((slot as int) < old(self).frame.stack_base ==> final(self).heap.obj(id)
                        == old(self).heap.obj(id) && final(self).open_upvalues@.contains(id))
                })),
            // upvalues aliasing one slot share one cell
            r ==> forall|id1: u32, id2: u32|
                #[trigger] old(self).open_upvalues@.contains(id1) && #[trigger] old(self).open_upvalues@.contains(id2) ==> (old(self).heap.obj(id1)
                    matches ObjType::UpValue(u1) ==> (old(self).heap.obj(id2)
                    matches ObjType::UpValue(u2) ==> (u1.loc matches UpValueLocation::Stack(s1)
                    ==> (u2.loc matches UpValueLocation::Stack(s2) ==> (s1 == s2 && (s1 as int)
                    >= old(self).frame.stack_base ==> final(self).heap.obj(id1) == final(self).heap.obj(id2)))))),
    {
        let n = self.open_upvalues.len();
        if n >= u32::MAX as usize || self.heap.mem.len() > u32::MAX as usize - n {
            return false;
        }
        let base = self.frame.stack_base;
        let mut remaining: Vec<u32> = Vec::new();
        let mut cells: Vec<(u16, u32)> = Vec::new();
        let mut i: usize = 0;
        while i < n
            invariant
                old(self).wf(),
                n == old(self).open_upvalues@.len(),
                base == old(self).frame.stack_base,
                i <= n,
                self.stack@ == old(self).stack@,
                self.frame == old(self).frame,
                self.callstack@ == old(self).callstack@,
                self.open_upvalues@ == old(self).open_upvalues@,
                self.functions@ == old(self).functions@,
                self.trace_out@ == old(self).trace_out@,
                self.gc_thr == old(self).gc_thr,
                self.debug == old(self).debug,
                self.heap.mem@.len() <= u32::MAX as int - (n - i),
                forall|j: u32|
                    old(self).heap.live(j) ==> self.heap.live(j) && (old(self).heap.obj(
                        j,
                    ) is UpValue || self.heap.obj(j) == old(self).heap.obj(j)),
                forall|j: u32|
                    #[trigger] self.heap.live(j) && !old(self).heap.live(j) ==> self.heap.obj(
                        j,
                    ) is BoxedValue,
                forall|j: u32|
                    old(self).heap.live(j) && old(self).heap.obj(j) is UpValue
                        ==> (#[trigger] self.heap.obj(j)) is UpValue,
                forall|j: u32| #[trigger] self.heap.live(j) ==> self.obj_wf(self.heap.obj(j)),
                forall|j: u32|
                    #[trigger] self.heap.live(j) && (self.heap.obj(j) matches ObjType::UpValue(u)
                        && u.loc is Stack) ==> old(self).heap.live(j) && old(self).heap.obj(j)
                        == self.heap.obj(j),
                forall|k: int|
                    0 <= k < remaining@.len() ==> (self.heap.obj(#[trigger] remaining@[k])
                        matches ObjType::UpValue(u) && u.loc matches UpValueLocation::Stack(slot)
                        && (slot as int) < base),
                forall|k: int|
                    0 <= k < remaining@.len() ==> self.heap.live(#[trigger] remaining@[k]),
                forall|k: int|
                    0 <= k < remaining@.len() ==> old(self).open_upvalues@.contains(
                        #[trigger] remaining@[k],
                    ),
                forall|j: u32|
                    #[trigger] self.heap.live(j) && (self.heap.obj(j) matches ObjType::UpValue(u)
                        && u.loc is Stack) ==> remaining@.contains(j) || exists|k: int|
                        i <= k < n && old(self).open_upvalues@[k] == j,
                // shared cells: one boxed cell per closed slot, holding the
                // slot's value, and no slot twice
                forall|q: int|
                    0 <= q < cells@.len() ==> ((#[trigger] cells@[q]).0 as int) >= base as int && (
                    cells@[q].0 as int) < old(self).stack@.len() && self.heap.live(cells@[q].1)
                        && self.heap.obj(cells@[q].1) == ObjType::BoxedValue(
                        old(self).stack@[cells@[q].0 as int],
                    ),
                forall|q1: int, q2: int|
                    0 <= q1 < q2 < cells@.len() ==> (#[trigger] cells@[q1]).0 != (
                    #[trigger] cells@[q2]).0,
                // where each listed upvalue stands: untouched and still due,
                // pushed to `remaining`, or closed onto its slot's cell
                forall|id: u32|
                    #[trigger] old(self).open_upvalues@.contains(id) ==> (old(self).heap.obj(id)
                        matches ObjType::UpValue(u) ==> (u.loc matches UpValueLocation::Stack(
                        slot,
                    ) ==> {
                        &&& ((slot as int) >= base as int ==> (self.heap.obj(id) == old(self).heap.obj(id) && exists|k: int|
                            i <= k < n && old(self).open_upvalues@[k] == id) || exists|q: int|
                            0 <= q < cells@.len() && (#[trigger] cells@[q]).0 == slot
                                && self.heap.obj(id) == ObjType::UpValue(
                                UpValue { loc: UpValueLocation::Heap(cells@[q].1) },
                            ))
                        &&& ((slot as int) < base as int ==> self.heap.obj(id) == old(self).heap.obj(id) && (remaining@.contains(id) || exists|k: int|
                            i <= k < n && old(self).open_upvalues@[k] == id))
                    })),
            decreases n - i,
        {
            let id = self.open_upvalues[i];
            proof {
                assert(old(self).heap.live(old(self).open_upvalues@[i as int]));
                assert(old(self).heap.obj(id) is UpValue);
                assert(self.heap.live(id));
                assert(old(self).open_upvalues@.contains(id)) by {
                    assert(old(self).open_upvalues@[i as int] == id);
                }
            }
            let ghost pre_loop = *self;
            let ghost rem_head = remaining@;
            let ghost cells_head = cells@;
            match self.heap.get(id) {
                ObjType::UpValue(u) => {
                    match u.loc {
                        UpValueLocation::Stack(slot) => {
                            proof {
                                assert(old(self).heap.obj(id) == self.heap.obj(id));
                            }
                            if (slot as usize) < base {
                                remaining.push(id);
                                proof {
                                    assert(remaining@.last() == id);
                                    assert forall|jj: u32|
                                        rem_head.contains(jj) implies remaining@.contains(jj) by {
                                        let kx = choose|kx: int|
                                            0 <= kx < rem_head.len() && rem_head[kx] == jj;
                                        assert(remaining@[kx] == jj);
                                    }
                                }
                            } else {
                                // Find or make the shared cell for this slot.
                                let mut cell: Option<u32> = None;
                                let mut ci: usize = 0;
                                while ci < cells.len()
                                    invariant
                                        ci <= cells@.len(),
                                        cells@ == cells_head,
                                        cell is Some ==> exists|q: int|
                                            0 <= q < cells@.len() && cells@[q].1
                                                == cell->Some_0 && cells@[q].0 == slot,
                                        cell is None ==> forall|q: int|
                                            0 <= q < ci ==> (#[trigger] cells@[q]).0 != slot,
                                        forall|q: int|
                                            0 <= q < cells@.len() ==> self.heap.live(
                                                (#[trigger] cells@[q]).1,
                                            ) && self.heap.obj(cells@[q].1) is BoxedValue,
                                    decreases cells@.len() - ci,
                                {
                                    if cells[ci].0 == slot {
                                        cell = Some(cells[ci].1);
                                    }
                                    ci = ci + 1;
                                }
                                if (slot as usize) >= self.stack.len() {
                                    proof {
                                        assert(!closable(*old(self))) by {
                                            assert(old(self).heap.obj(
                                                old(self).open_upvalues@[i as int],
                                            ) matches ObjType::UpValue(uu) && uu.loc
                                                matches UpValueLocation::Stack(s2) && s2 == slot);
                                        }
                                        lemma_close_bail(*old(self), *self, remaining@, i as int, n as int);
                                    }
                                    return false;
                                }
                                let boxid: u32 = match cell {
                                    Some(c) => c,
                                    None => {
                                        let v = self.stack[slot as usize].clone();
                                        match self.heap.allocate_val(v) {
                                            Some(b) => {
                                                cells.push((slot, b));
                                                b
                                            },
                                            None => {
                                                proof {
                                                    assert(false);
                                                }
                                                0
                                            },
                                        }
                                    },
                                };
                                proof {
                                    assert(self.heap.live(boxid) && self.heap.obj(
                                        boxid,
                                    ) is BoxedValue);
                                    assert(exists|q: int|
                                        0 <= q < cells@.len() && (#[trigger] cells@[q]).0 == slot
                                            && cells@[q].1 == boxid) by {
                                        if cell is None {
                                            assert(cells@[cells@.len() - 1].0 == slot
                                                && cells@[cells@.len() - 1].1 == boxid);
                                        }
                                    }
                                }
                                self.heap.close_upvalue(id, boxid);
                            }
                        },
                        UpValueLocation::Heap(_) => {},
                    }
                },
                _ => {
                    proof {
                        assert(false);
                    }
                },
            }
            proof {
                assert forall|jj: u32|
                    #[trigger] self.heap.live(jj) && (self.heap.obj(jj)
                        matches ObjType::UpValue(uu) && uu.loc is Stack) implies
                    remaining@.contains(jj) || (exists|k: int|
                    i + 1 <= k < n && old(self).open_upvalues@[k] == jj) by {
                    // A fresh object is a box, so jj was live at the head of
                    // this iteration, and an object open now was open then.
                    assert(pre_loop.heap.live(jj) && pre_loop.heap.obj(jj) == self.heap.obj(
                        jj,
                    )) by {
                        if jj == id {
                            assert(!(self.heap.obj(id) matches ObjType::UpValue(z)
                                && z.loc is Heap));
                        }
                    }
                    if rem_head.contains(jj) {
                        let kx = choose|kx: int| 0 <= kx < rem_head.len() && rem_head[kx] == jj;
                        assert(remaining@[kx] == jj);
                        assert(remaining@.contains(jj));
                    } else {
                        let kw = choose|kw: int|
                            i <= kw < n && old(self).open_upvalues@[kw] == jj;
                        if kw == i {
                            assert(jj == id);
                            assert(remaining@.last() == id);
                            assert(remaining@.contains(jj));
                        } else {
                            assert(i + 1 <= kw < n && old(self).open_upvalues@[kw] == jj);
                        }
                    }
                }
                // each cell keeps holding its slot's old value
                assert forall|q: int|
                    0 <= q < cells@.len() implies ((#[trigger] cells@[q]).0 as int)
                    >= base as int && (cells@[q].0 as int) < old(self).stack@.len()
                    && self.heap.live(cells@[q].1) && self.heap.obj(cells@[q].1)
                    == ObjType::BoxedValue(old(self).stack@[cells@[q].0 as int]) by {
                    if q < cells_head.len() {
                        assert(cells_head[q] == cells@[q]);
                        assert(pre_loop.heap.obj(cells_head[q].1) == ObjType::BoxedValue(
                            old(self).stack@[cells_head[q].0 as int],
                        ));
                    }
                }
                // the placement record for every listed upvalue
                assert forall|jj: u32|
                    #[trigger] old(self).open_upvalues@.contains(jj) implies (old(self).heap.obj(
                    jj,
                ) matches ObjType::UpValue(uu) ==> (uu.loc matches UpValueLocation::Stack(slot)
                    ==> {
                    &&& ((slot as int) >= base as int ==> (self.heap.obj(jj) == old(self).heap.obj(jj) && exists|k: int|
                        i + 1 <= k < n && old(self).open_upvalues@[k] == jj) || exists|q: int|
                        0 <= q < cells@.len() && (#[trigger] cells@[q]).0 == slot
                            && self.heap.obj(jj) == ObjType::UpValue(
                            UpValue { loc: UpValueLocation::Heap(cells@[q].1) },
                        ))
                    &&& ((slot as int) < base as int ==> self.heap.obj(jj) == old(self).heap.obj(jj) && (remaining@.contains(jj) || exists|k: int|
                        i + 1 <= k < n && old(self).open_upvalues@[k] == jj))
                })) by {
                    if old(self).heap.obj(jj) is UpValue {
                        match old(self).heap.obj(jj)->UpValue_0.loc {
                            UpValueLocation::Stack(slot) => {
                                if jj == id {
                                    match pre_loop.heap.obj(id)->UpValue_0.loc {
                                        UpValueLocation::Stack(sl) => {
                                            assert(pre_loop.heap.obj(id) == old(self).heap.obj(
                                                id,
                                            ));
                                            assert(sl == slot);
                                            if (slot as int) < base as int {
                                                assert(remaining@.contains(id));
                                            }
                                        },
                                        UpValueLocation::Heap(_) => {
                                            // closed in an earlier pass over a
                                            // duplicate entry; untouched now
                                            assert(self.heap.obj(id) == pre_loop.heap.obj(id));
                                            assert((slot as int) >= base as int ==> exists|q: int|
                                                0 <= q < cells_head.len() && (
                                                #[trigger] cells_head[q]).0 == slot
                                                    && pre_loop.heap.obj(id) == ObjType::UpValue(
                                                    UpValue {
                                                        loc: UpValueLocation::Heap(
                                                            cells_head[q].1,
                                                        ),
                                                    },
                                                ));
                                            if (slot as int) >= base as int {
                                                let q = choose|q: int|
                                                    0 <= q < cells_head.len() && (
                                                    #[trigger] cells_head[q]).0 == slot
                                                        && pre_loop.heap.obj(id)
                                                        == ObjType::UpValue(
                                                        UpValue {
                                                            loc: UpValueLocation::Heap(
                                                                cells_head[q].1,
                                                            ),
                                                        },
                                                    );
                                                assert(cells@[q] == cells_head[q]);
                                            }
                                        },
                                    }
                                } else {
                                    assert(self.heap.obj(jj) == pre_loop.heap.obj(jj));
                                    if (slot as int) >= base as int {
                                        if pre_loop.heap.obj(jj) == old(self).heap.obj(jj)
                                            && (exists|k: int|
                                            i <= k < n && old(self).open_upvalues@[k] == jj) {
                                            let kw = choose|kw: int|
                                                i <= kw < n && old(self).open_upvalues@[kw] == jj;
                                            if kw == i {
                                                assert(jj == id);
                                            } else {
                                                assert(i + 1 <= kw < n);
                                            }
                                        } else {
                                            let q = choose|q: int|
                                                0 <= q < cells_head.len() && (
                                                #[trigger] cells_head[q]).0 == slot
                                                    && pre_loop.heap.obj(jj) == ObjType::UpValue(
                                                    UpValue {
                                                        loc: UpValueLocation::Heap(
                                                            cells_head[q].1,
                                                        ),
                                                    },
                                                );
                                            assert(cells@[q] == cells_head[q]);
                                        }
                                    } else {
                                        if rem_head.contains(jj) {
                                            let kx = choose|kx: int|
                                                0 <= kx < rem_head.len() && rem_head[kx] == jj;
                                            assert(remaining@[kx] == jj);
                                        } else if exists|k: int|
                                            i <= k < n && old(self).open_upvalues@[k] == jj {
                                            let kw = choose|kw: int|
                                                i <= kw < n && old(self).open_upvalues@[kw] == jj;
                                            if kw == i {
                                                assert(jj == id);
                                            } else {
                                                assert(i + 1 <= kw < n);
                                            }
                                        }
                                    }
                                }
                            },
                            UpValueLocation::Heap(_) => {},
                        }
                    }
                }
            }
            i = i + 1;
        }
        self.open_upvalues = remaining;
        proof {
            assert(self.wf()) by {
                assert(self.frames_wf());
                assert(self.stack_wf()) by {
                    assert forall|ix: int| 0 <= ix < self.stack@.len() implies self.value_wf(
                        #[trigger] self.stack@[ix],
                    ) by {
                        assert(old(self).value_wf(old(self).stack@[ix]));
                    }
                }
                assert(self.open_wf());
                assert(self.open_complete()) by {
                    assert forall|id: u32|
                        #[trigger] self.heap.live(id) && (self.heap.obj(id)
                            matches ObjType::UpValue(u) && u.loc is Stack) implies
                        self.open_upvalues@.contains(id) by {}
                }
            }
            // aliasing upvalues were closed onto one cell
            assert forall|id1: u32, id2: u32|
                #[trigger] old(self).open_upvalues@.contains(id1) && #[trigger] old(self).open_upvalues@.contains(id2) implies (old(self).heap.obj(id1)
                matches ObjType::UpValue(u1) ==> (old(self).heap.obj(id2)
                matches ObjType::UpValue(u2) ==> (u1.loc matches UpValueLocation::Stack(s1)
                ==> (u2.loc matches UpValueLocation::Stack(s2) ==> (s1 == s2 && (s1 as int)
                >= base as int ==> self.heap.obj(id1) == self.heap.obj(id2)))))) by {
                match (old(self).heap.obj(id1), old(self).heap.obj(id2)) {
                    (ObjType::UpValue(u1), ObjType::UpValue(u2)) => {
                        match (u1.loc, u2.loc) {
                            (UpValueLocation::Stack(s1), UpValueLocation::Stack(s2)) => {
                                if s1 == s2 && (s1 as int) >= base as int {
                                    let q1 = choose|q: int|
                                        0 <= q < cells@.len() && (#[trigger] cells@[q]).0 == s1
                                            && self.heap.obj(id1) == ObjType::UpValue(
                                            UpValue { loc: UpValueLocation::Heap(cells@[q].1) },
                                        );
                                    let q2 = choose|q: int|
                                        0 <= q < cells@.len() && (#[trigger] cells@[q]).0 == s2
                                            && self.heap.obj(id2) == ObjType::UpValue(
                                            UpValue { loc: UpValueLocation::Heap(cells@[q].1) },
                                        );
                                    assert(q1 == q2) by {
                                        if q1 < q2 {
                                            assert(cells@[q1].0 != cells@[q2].0);
                                        }
                                        if q2 < q1 {
                                            assert(cells@[q2].0 != cells@[q1].0);
                                        }
                                    }
                                }
                            },
                            _ => {},
                        }
                    },
                    _ => {},
                }
            }
        }
        true
    }


    /// `Return`: if there is no caller the program is done; otherwise close
    /// the returning frame's upvalues, pop the return value, drop the
    /// frame's stack region, restore the caller and push the value, so that
    /// exactly the callee slot's replacement remains.
    #[verifier::rlimit(60)]
    #[verifier::spinoff_prover]
    fn do_return(&mut self, gc: &mut GC) -> (r: Option<ExecStatus>)
        requires
            old(self).wf(),
        ensures
            final(self).wf(),
            final(self).functions@ == old(self).functions@,
            final(self).debug == old(self).debug,
            r == Some(ExecStatus::Done) ==> old(self).callstack@.len() == 0 && final(self).stack@
                == old(self).stack@ && final(self).heap == old(self).heap && final(self).callstack@
                == old(self).callstack@ && final(self).open_upvalues@ == old(self).open_upvalues@
                && final(self).trace_out@ == old(self).trace_out@ && final(self).frame == old(self).frame,
            old(self).callstack@.len() == 0 ==> r == Some(ExecStatus::Done),
            // a well-formed return cannot fault: a caller exists, a return
            // value sits above the base, and the frame's upvalues close
            old(self).callstack@.len() > 0 && old(self).stack@.len() <= old(self).frame.stack_base ==> r == Some(ExecStatus::Fault(ErrorKind::InternalInvariant)),
            old(self).callstack@.len() > 0 && old(self).stack@.len() > old(self).frame.stack_base
                && closable(*old(self)) ==> r is None,
            r is None ==> old(self).callstack@.len() > 0 && final(self).stack@.len() == old(self).frame.stack_base + 1 && final(self).frame == old(self).callstack@.last(),
            // the callee's region is replaced by exactly the return value
            r is None ==> final(self).stack@ == old(self).stack@.take(
                old(self).frame.stack_base as int,
            ).push(old(self).stack@.last()) && final(self).callstack@ == old(self).callstack@.drop_last() && final(self).trace_out@ == old(self).trace_out@,
            // surviving upvalues of the returning frame were closed onto
            // cells holding their slots' values, aliases sharing one cell
            r is None ==> forall|id: u32|
                #[trigger] old(self).open_upvalues@.contains(id) ==> (old(self).heap.obj(id)
                    matches ObjType::UpValue(u) ==> (u.loc matches UpValueLocation::Stack(slot)
                    ==> ((slot as int) >= old(self).frame.stack_base && final(self).heap.live(id)
                    ==> (final(self).heap.obj(id) matches ObjType::UpValue(u2) && u2.loc
                    matches UpValueLocation::Heap(cell) && final(self).heap.live(cell) && final(self).heap.obj(cell) == ObjType::BoxedValue(old(self).stack@[slot as int]))))),
            r is None ==> forall|id1: u32, id2: u32|
                #[trigger] old(self).open_upvalues@.contains(id1) && #[trigger] old(self).open_upvalues@.contains(id2) && final(self).heap.live(id1) && final(self).heap.live(id2) ==> (old(self).heap.obj(id1) matches ObjType::UpValue(u1) ==> (old(self).heap.obj(id2) matches ObjType::UpValue(u2) ==> (u1.loc
                    matches UpValueLocation::Stack(s1) ==> (u2.loc matches UpValueLocation::Stack(
                    s2,
                ) ==> (s1 == s2 && (s1 as int) >= old(self).frame.stack_base ==> final(self).heap.obj(id1) == final(self).heap.obj(id2)))))),
            r matches Some(ExecStatus::Fault(k)) ==> k == ErrorKind::InternalInvariant,
            !(r == Some(ExecStatus::OutOfSteps)),
    {
        if self.callstack.len() == 0 {
            return Some(ExecStatus::Done);
        }
        if self.stack.len() <= self.frame.stack_base {
            return Some(ExecStatus::Fault(ErrorKind::InternalInvariant));
        }
        if !self.close_upvalues() {
            return Some(ExecStatus::Fault(ErrorKind::InternalInvariant));
        }
        let ghost mid = *self;
        let base = self.frame.stack_base;
        let val = match self.pop_stack() {
            Some(v) => v,
            None => {
                proof {
                    assert(false);
                }
                Value::Null
            },
        };
        self.stack.truncate(base);
        let frame = match self.callstack.pop() {
            Some(f) => f,
            None => {
                proof {
                    assert(false);
                }
                self.frame
            },
        };
        self.frame = frame;
        self.stack.push(val);
        proof {
            assert(self.stack@ =~= mid.stack@.take(base as int).push(val));
            lemma_return_wf(mid, *self, base, val);
        }
        let ghost pre_gc = *self;
        self.gc_point(gc);
        proof {
            assert forall|id: u32|
                #[trigger] old(self).open_upvalues@.contains(id) implies (old(self).heap.obj(id)
                matches ObjType::UpValue(u) ==> (u.loc matches UpValueLocation::Stack(slot) ==> ((
            slot as int) >= base && self.heap.live(id) ==> (self.heap.obj(id)
                matches ObjType::UpValue(u2) && u2.loc matches UpValueLocation::Heap(cell)
                && self.heap.live(cell) && self.heap.obj(cell) == ObjType::BoxedValue(
                old(self).stack@[slot as int],
            ))))) by {
                if old(self).heap.obj(id) is UpValue {
                    match old(self).heap.obj(id)->UpValue_0.loc {
                        UpValueLocation::Stack(slot) => {
                            if (slot as int) >= base && self.heap.live(id) {
                                assert(pre_gc.heap.obj(id) == self.heap.obj(id));
                                match self.heap.obj(id)->UpValue_0.loc {
                                    UpValueLocation::Heap(cell) => {
                                        assert(self.obj_wf(self.heap.obj(id)));
                                        assert(self.heap.live(cell));
                                        assert(self.heap.obj(cell) == pre_gc.heap.obj(cell));
                                    },
                                    UpValueLocation::Stack(_) => {},
                                }
                            }
                        },
                        UpValueLocation::Heap(_) => {},
                    }
                }
            }
            assert forall|id1: u32, id2: u32|
                #[trigger] old(self).open_upvalues@.contains(id1) && #[trigger] old(self).open_upvalues@.contains(id2) && self.heap.live(id1) && self.heap.live(id2)
                implies (old(self).heap.obj(id1) matches ObjType::UpValue(u1) ==> (old(self).heap.obj(id2) matches ObjType::UpValue(u2) ==> (u1.loc
                matches UpValueLocation::Stack(s1) ==> (u2.loc matches UpValueLocation::Stack(s2)
                ==> (s1 == s2 && (s1 as int) >= base ==> self.heap.obj(id1) == self.heap.obj(
                id2,
            )))))) by {
                assert(pre_gc.heap.live(id1) ==> self.heap.obj(id1) == pre_gc.heap.obj(id1));
                assert(pre_gc.heap.live(id2) ==> self.heap.obj(id2) == pre_gc.heap.obj(id2));
            }
        }
        None
    }


    /// `FnCall(argc)`: the callee sits `argc` slots below the top; it must
    /// be a heap reference to a closure.  The caller's frame is saved and a
    /// fresh frame starts at the callee's slot.
    fn do_fncall(&mut self, argc: u16, gc: &mut GC) -> (r: Option<ExecStatus>)
        requires
            old(self).wf(),
        ensures
            final(self).wf(),
            final(self).functions@ == old(self).functions@,
            final(self).debug == old(self).debug,
            !(r == Some(ExecStatus::Done)) && !(r == Some(ExecStatus::OutOfSteps)),
            old(self).stack@.len() < 1 + argc as int ==> r == Some(ExecStatus::Fault(
                ErrorKind::InternalInvariant,
            )),
            old(self).stack@.len() >= 1 + argc as int && (old(self).stack@.len() - 1
                - argc as int) < old(self).frame.stack_base ==> r == Some(ExecStatus::Fault(
                ErrorKind::InternalInvariant,
            )),
            old(self).stack@.len() >= 1 + argc as int && old(self).stack@.len() - 1 - argc as int
                >= old(self).frame.stack_base ==> {
                let callee = old(self).stack@[old(self).stack@.len() - 1 - argc as int];
                &&& (!(callee is Heap) ==> r == Some(ExecStatus::Fault(ErrorKind::NotCallable)))
                &&& (callee matches Value::Heap(id) ==> {
                    &&& (old(self).heap.obj(id) is Closure ==> r is None)
                    &&& (!(old(self).heap.obj(id) is Closure) ==> r == Some(ExecStatus::Fault(
                        ErrorKind::NotCallable,
                    )))
                })
            },
            // the callee's frame starts at its own slot; the caller is saved
            r is None ==> final(self).stack@ == old(self).stack@ && final(self).frame == (CallFrame {
                clsr_id: old(self).stack@[old(self).stack@.len() - 1 - argc as int]->Heap_0,
                cur_instr: 0,
                stack_base: (old(self).stack@.len() - 1 - argc as int) as usize,
            }) && final(self).callstack@ == old(self).callstack@.push(old(self).frame) && final(self).open_upvalues@ == old(self).open_upvalues@ && final(self).trace_out@ == old(self).trace_out@,
    {
        if self.stack.len() < 1 + argc as usize {
            return Some(ExecStatus::Fault(ErrorKind::InternalInvariant));
        }
        let funcpos = self.stack.len() - 1 - argc as usize;
        if funcpos < self.frame.stack_base {
            return Some(ExecStatus::Fault(ErrorKind::InternalInvariant));
        }
        let id = match &self.stack[funcpos] {
            Value::Heap(id) => *id,
            _ => {
                return Some(ExecStatus::Fault(ErrorKind::NotCallable));
            },
        };
        proof {
            assert(self.value_wf(self.stack@[funcpos as int]));
        }
        let callable = match self.heap.get(id) {
            ObjType::Closure(_) => true,
            _ => false,
        };
        if !callable {
            return Some(ExecStatus::Fault(ErrorKind::NotCallable));
        }
        let parent = self.frame;
        self.callstack.push(parent);
        self.frame = CallFrame { clsr_id: id, cur_instr: 0, stack_base: funcpos };
        proof {
            assert(self.frames_wf()) by {
                assert forall|i: int| 0 <= i < self.callstack@.len() implies self.frame_wf(
                    #[trigger] self.callstack@[i],
                ) by {
                    if i < self.callstack@.len() - 1 {
                        assert(old(self).frame_wf(old(self).callstack@[i]));
                    }
                }
            }
        }
        self.gc_point(gc);
        None
    }

    /// `Closure(dest, fid)`: builds a closure over function-table entry
    /// `fid`, resolving its capture descriptors in order, and stores it in
    /// local slot `dest`.  A collection may run first.
    fn do_closure(&mut self, dest: u16, fid: u16, gc: &mut GC) -> (r: Option<ExecStatus>)
        requires
            old(self).wf(),
        ensures
            final(self).wf(),
            final(self).functions@ == old(self).functions@,
            final(self).debug == old(self).debug,
            r is None ==> (final(self).stack@[old(self).frame.stack_base + dest as int]
                matches Value::Heap(cid) && final(self).heap.live(cid) && (final(self).heap.obj(
                cid,
            ) matches ObjType::Closure(c) && c.fn_idx == fid && c.upvalues@.len() == old(self).functions@[fid as int].upvals@.len())),
            // the closure lands in its slot with its capture vector resolved
            // per descriptor; nothing else of the stack, the frame, the
            // saved frames or the trace moves, and the open list gains
            // exactly the fresh local captures
            r is None ==> closure_built(*old(self), *final(self), dest, fid) && final(self).frame
                == old(self).frame && final(self).callstack@ == old(self).callstack@ && final(self).trace_out@ == old(self).trace_out@,
            // with a slot and a function to name, room in the id space and
            // resolvable capture descriptors, building cannot fail
            closure_buildable(*old(self), dest, fid) ==> r is None,
            r matches Some(st) ==> (st matches ExecStatus::Fault(k) && k
                == ErrorKind::InternalInvariant),
            !(r == Some(ExecStatus::Done)) && !(r == Some(ExecStatus::OutOfSteps)),
    {
        self.gc_point(gc);
        proof {
            if closure_buildable(*old(self), dest, fid) {
                assert(self.heap.live(self.frame.clsr_id));
                assert(self.heap.obj(self.frame.clsr_id) == old(self).heap.obj(
                    old(self).frame.clsr_id,
                ));
            }
        }
        let base = self.frame.stack_base;
        let stack_len = self.stack.len();
        if base > usize::MAX - dest as usize || base + dest as usize >= stack_len {
            proof {
                if closure_buildable(*old(self), dest, fid) {
                    assert(self.stack@.len() == old(self).stack@.len());
                    assert(base == old(self).frame.stack_base);
                    assert((old(self).frame.stack_base + dest as int) < old(self).stack@.len());
                    assert(old(self).stack@.len() == stack_len as int);
                    assert(false);
                }
            }
            return Some(ExecStatus::Fault(ErrorKind::InternalInvariant));
        }
        let slot = base + dest as usize;
        if fid as usize >= self.functions.len() {
            return Some(ExecStatus::Fault(ErrorKind::InternalInvariant));
        }
        let nup = self.functions[fid as usize].upvals.len();
        proof {
            assert(self.heap.live(self.frame.clsr_id));
            assert(self.heap.obj(self.frame.clsr_id) == old(self).heap.obj(
                old(self).frame.clsr_id,
            ));
            assert(self.open_upvalues@ =~= old(self).open_upvalues@ + fresh_captures(
                old(self).functions@[fid as int].upvals@.take(0),
                Seq::empty(),
            ));
        }
        let mut ups: Vec<u32> = Vec::new();
        let mut k: usize = 0;
        while k < nup
            invariant
                self.wf(),
                k <= nup,
                ups@.len() == k,
                base == self.frame.stack_base,
                (fid as int) < self.functions@.len(),
                nup == self.functions@[fid as int].upvals@.len(),
                (slot as int) < self.stack@.len(),
                slot == base + dest as usize,
                self.stack@ == old(self).stack@,
                self.frame == old(self).frame,
                self.callstack@ == old(self).callstack@,
                self.functions@ == old(self).functions@,
                self.trace_out@ == old(self).trace_out@,
                self.debug == old(self).debug,
                self.open_upvalues@ == old(self).open_upvalues@ + fresh_captures(
                    old(self).functions@[fid as int].upvals@.take(k as int),
                    ups@,
                ),
                closure_buildable(*old(self), dest, fid) ==> self.heap.mem@.len() + (nup - k) + 1
                    <= u32::MAX as int,
                self.heap.mem@.len() >= old(self).heap.mem@.len(),
                self.heap.obj(self.frame.clsr_id) == old(self).heap.obj(
                    old(self).frame.clsr_id,
                ),
                forall|q: int|
                    0 <= q < ups@.len() ==> self.heap.live(#[trigger] ups@[q]) && self.heap.obj(
                        ups@[q],
                    ) is UpValue,
                forall|q: int|
                    #![trigger ups@[q]]
                    0 <= q < ups@.len() ==> {
                        let d = old(self).functions@[fid as int].upvals@[q];
                        &&& (!d.is_local ==> ups@[q] == old(self).cur_closure().upvalues@[d.id as int])
                        &&& (d.is_local ==> !old(self).heap.live(ups@[q]) && self.heap.obj(ups@[q])
                            == ObjType::UpValue(
                            UpValue {
                                loc: UpValueLocation::Stack(
                                    (old(self).frame.stack_base + d.id as int) as u16,
                                ),
                            },
                        ))
                    },
            decreases nup - k,
        {
            let ghost pre = *self;
            let ghost pre_ups = ups@;
            let d = self.functions[fid as usize].upvals[k];
            match self.capture_upvalue(d) {
                Ok(uid) => {
                    ups.push(uid);
                    proof {
                        let ghost descs = old(self).functions@[fid as int].upvals@;
                        assert forall|q: int|
                            0 <= q < ups@.len() implies self.heap.live(#[trigger] ups@[q])
                            && self.heap.obj(ups@[q]) is UpValue by {
                            if q < ups@.len() - 1 {
                                assert(pre.heap.live(ups@[q]));
                            }
                        }
                        assert(descs.take(k + 1).drop_last() =~= descs.take(k as int));
                        assert(ups@.drop_last() =~= pre_ups);
                        assert(descs.take(k + 1).last() == d);
                        if d.is_local {
                            assert(self.open_upvalues@ =~= old(self).open_upvalues@
                                + fresh_captures(descs.take(k + 1), ups@));
                        } else {
                            assert(self.open_upvalues@ =~= old(self).open_upvalues@
                                + fresh_captures(descs.take(k + 1), ups@));
                            assert(pre.cur_closure() == old(self).cur_closure());
                        }
                        assert forall|q: int|
                            #![trigger ups@[q]]
                            0 <= q < ups@.len() implies {
                            let d2 = descs[q];
                            &&& (!d2.is_local ==> ups@[q] == old(self).cur_closure().upvalues@[d2.id as int])
                            &&& (d2.is_local ==> !old(self).heap.live(ups@[q]) && self.heap.obj(
                                ups@[q],
                            ) == ObjType::UpValue(
                                UpValue {
                                    loc: UpValueLocation::Stack(
                                        (old(self).frame.stack_base + d2.id as int) as u16,
                                    ),
                                },
                            ))
                        } by {
                            if q < ups@.len() - 1 {
                                assert(pre_ups[q] == ups@[q]);
                                assert(pre.heap.live(ups@[q]) ==> self.heap.obj(ups@[q])
                                    == pre.heap.obj(ups@[q]));
                            } else {
                                assert(ups@[q] == uid);
                                if d.is_local {
                                    assert(uid as int >= old(self).heap.mem@.len());
                                    assert(!old(self).heap.live(uid));
                                } else {
                                    assert(pre.cur_closure() == old(self).cur_closure());
                                }
                            }
                        }
                    }
                },
                Err(e) => {
                    proof {
                        if closure_buildable(*old(self), dest, fid) {
                            assert(old(self).functions@[fid as int].upvals@[k as int] == d);
                            if d.is_local {
                                assert(false);
                            } else {
                                assert(pre.cur_closure() == old(self).cur_closure());
                                assert(false);
                            }
                        }
                    }
                    return Some(ExecStatus::Fault(e));
                },
            }
            k = k + 1;
        }
        let ghost pre_alloc = *self;
        let ghost pre_alloc_ups = ups@;
        let cid = match self.heap.allocate(ObjType::Closure(Closure { fn_idx: fid, upvalues: ups })) {
            Some(c) => c,
            None => {
                proof {
                    assert(self.wf()) by {
                        assert(self.heap.mem@ == pre_alloc.heap.mem@);
                        assert forall|j: u32|
                            self.heap.live(j) == pre_alloc.heap.live(j) && (self.heap.live(j)
                                ==> self.heap.obj(j) == pre_alloc.heap.obj(j)) by {}
                        assert(self.frames_wf());
                        assert(self.heap_wf()) by {
                            assert forall|j: u32| #[trigger] self.heap.live(j) implies self.obj_wf(
                                self.heap.obj(j),
                            ) by {
                                assert(pre_alloc.obj_wf(pre_alloc.heap.obj(j)));
                            }
                        }
                        assert(self.stack_wf());
                        assert(self.open_wf());
                        assert(self.open_complete()) by {
                            assert forall|id2: u32|
                                #[trigger] self.heap.live(id2) && (self.heap.obj(id2)
                                    matches ObjType::UpValue(u) && u.loc is Stack) implies
                                self.open_upvalues@.contains(id2) by {
                                assert(pre_alloc.heap.live(id2));
                                assert(pre_alloc.heap.obj(id2) == self.heap.obj(id2));
                            }
                        }
                    }
                }
                proof {
                    if closure_buildable(*old(self), dest, fid) {
                        assert(false);
                    }
                }
                return Some(ExecStatus::Fault(ErrorKind::InternalInvariant));
            },
        };
        proof {
            lemma_wf_grow(pre_alloc, *self);
        }
        let ghost pre_store = *self;
        self.set_stack(slot, Value::Heap(cid));
        proof {
            assert(self.wf()) by {
                assert(self.stack_wf()) by {
                    assert forall|i: int| 0 <= i < self.stack@.len() implies self.value_wf(
                        #[trigger] self.stack@[i],
                    ) by {
                        if i != slot as int {
                            assert(pre_store.value_wf(pre_store.stack@[i]));
                        }
                    }
                }
                assert(self.heap_wf()) by {
                    assert forall|id: u32| #[trigger] self.heap.live(id) implies self.obj_wf(
                        self.heap.obj(id),
                    ) by {
                        assert(pre_store.obj_wf(pre_store.heap.obj(id)));
                    }
                }
                assert(self.open_wf());
                assert(self.open_complete());
            }
            assert(self.stack@[base + dest as int] == Value::Heap(cid));
            assert(self.stack@ == old(self).stack@.update(
                old(self).frame.stack_base + dest as int,
                Value::Heap(cid),
            ));
            // the built closure matches its descriptors
            assert(closure_built(*old(self), *self, dest, fid)) by {
                let descs = old(self).functions@[fid as int].upvals@;
                assert(descs.take(nup as int) =~= descs);
                assert(self.heap.obj(cid) matches ObjType::Closure(c2) && c2.upvalues@
                    == pre_alloc_ups);
                assert forall|q: int|
                    0 <= q < descs.len() implies pre_alloc.heap.live(#[trigger] pre_alloc_ups[q])
                    && self.heap.obj(pre_alloc_ups[q]) == pre_alloc.heap.obj(
                    pre_alloc_ups[q],
                ) by {
                    assert(pre_alloc.heap.live(pre_alloc_ups[q]));
                }
            }
        }
        None
    }


    /// The two topmost values, left below right, when at least two sit on
    /// the stack and replacing them by one would not empty the frame's
    /// region below its base.
    fn read_two(&self) -> (r: Option<(&Value, &Value)>)
        ensures
            r is Some <==> (self.stack@.len() >= 2 && self.stack@.len() > self.frame.stack_base),
            r matches Some((a, b)) ==> *a == self.stack@[self.stack@.len() - 2] && *b
                == self.stack@.last(),
    {
        if self.stack.len() < 2 || self.stack.len() <= self.frame.stack_base {
            return None;
        }
        Some((&self.stack[self.stack.len() - 2], &self.stack[self.stack.len() - 1]))
    }

    /// Replaces the two topmost values by one.
    fn replace_two(&mut self, v: Value)
        requires
            old(self).wf(),
            old(self).stack@.len() >= 2,
            old(self).stack@.len() > old(self).frame.stack_base,
            old(self).value_wf(v),
        ensures
            final(self).wf(),
            final(self).stack@ == old(self).stack@.drop_last().drop_last().push(v),
            final(self).heap == old(self).heap,
            final(self).frame == old(self).frame,
            final(self).callstack@ == old(self).callstack@,
            final(self).open_upvalues@ == old(self).open_upvalues@,
            final(self).functions@ == old(self).functions@,
            final(self).trace_out@ == old(self).trace_out@,
            final(self).gc_thr == old(self).gc_thr,
            final(self).debug == old(self).debug,
    {
        let _ = self.stack.pop();
        let _ = self.stack.pop();
        self.stack.push(v);
        proof {
            lemma_wf_stack(*old(self), *self);
        }
    }

    /// Replaces the topmost value by another.
    fn replace_one(&mut self, v: Value)
        requires
            old(self).wf(),
            old(self).stack@.len() >= 1,
            old(self).stack@.len() > old(self).frame.stack_base,
            old(self).value_wf(v),
        ensures
            final(self).wf(),
            final(self).stack@ == old(self).stack@.drop_last().push(v),
            final(self).heap == old(self).heap,
            final(self).frame == old(self).frame,
            final(self).callstack@ == old(self).callstack@,
            final(self).open_upvalues@ == old(self).open_upvalues@,
            final(self).functions@ == old(self).functions@,
            final(self).trace_out@ == old(self).trace_out@,
            final(self).gc_thr == old(self).gc_thr,
            final(self).debug == old(self).debug,
    {
        let _ = self.stack.pop();
        self.stack.push(v);
        proof {
            lemma_wf_stack(*old(self), *self);
        }
    }

    /// Pushes a well-formed value.
    fn push_wf(&mut self, v: Value)
        requires
            old(self).wf(),
            old(self).value_wf(v),
        ensures
            final(self).wf(),
            final(self).stack@ == old(self).stack@.push(v),
            final(self).heap == old(self).heap,
            final(self).frame == old(self).frame,
            final(self).callstack@ == old(self).callstack@,
            final(self).open_upvalues@ == old(self).open_upvalues@,
            final(self).functions@ == old(self).functions@,
            final(self).trace_out@ == old(self).trace_out@,
            final(self).gc_thr == old(self).gc_thr,
            final(self).debug == old(self).debug,
    {
        self.stack.push(v);
        proof {
            lemma_wf_stack(*old(self), *self);
        }
    }

    /// Drops the topmost value.
    fn drop_top(&mut self)
        requires
            old(self).wf(),
            old(self).stack@.len() > old(self).frame.stack_base,
        ensures
            final(self).wf(),
            final(self).stack@ == old(self).stack@.drop_last(),
            final(self).heap == old(self).heap,
            final(self).frame == old(self).frame,
            final(self).callstack@ == old(self).callstack@,
            final(self).open_upvalues@ == old(self).open_upvalues@,
            final(self).functions@ == old(self).functions@,
            final(self).trace_out@ == old(self).trace_out@,
            final(self).gc_thr == old(self).gc_thr,
            final(self).debug == old(self).debug,
    {
        let _ = self.stack.pop();
        proof {
            lemma_wf_stack(*old(self), *self);
        }
    }

    /// Overwrites a stack slot with a well-formed value.
    fn write_slot(&mut self, id: usize, v: Value)
        requires
            old(self).wf(),
            (id as int) < old(self).stack@.len(),
            old(self).value_wf(v),
        ensures
            final(self).wf(),
            final(self).stack@ == old(self).stack@.update(id as int, v),
            final(self).heap == old(self).heap,
            final(self).frame == old(self).frame,
            final(self).callstack@ == old(self).callstack@,
            final(self).open_upvalues@ == old(self).open_upvalues@,
            final(self).functions@ == old(self).functions@,
            final(self).trace_out@ == old(self).trace_out@,
            final(self).gc_thr == old(self).gc_thr,
            final(self).debug == old(self).debug,
    {
        self.stack.set(id, v);
        proof {
            lemma_wf_stack(*old(self), *self);
        }
    }

    /// Moves the program counter forward by `d`; fails only on index
    /// overflow.
    fn advance_pc(&mut self, d: u16) -> (r: bool)
        requires
            old(self).wf(),
        ensures
            final(self).wf(),
            final(self).stack@ == old(self).stack@,
            final(self).heap == old(self).heap,
            final(self).callstack@ == old(self).callstack@,
            final(self).open_upvalues@ == old(self).open_upvalues@,
            final(self).functions@ == old(self).functions@,
            final(self).trace_out@ == old(self).trace_out@,
            final(self).gc_thr == old(self).gc_thr,
            final(self).debug == old(self).debug,
            final(self).frame.clsr_id == old(self).frame.clsr_id,
            final(self).frame.stack_base == old(self).frame.stack_base,
            r <==> old(self).frame.cur_instr + d as int <= usize::MAX as int,
            r ==> final(self).frame.cur_instr == old(self).frame.cur_instr + d,
            !r ==> final(self).frame == old(self).frame,
    {
        if (d as usize) > usize::MAX - self.frame.cur_instr {
            return false;
        }
        self.frame.cur_instr = self.frame.cur_instr + d as usize;
        true
    }

    /// One fetch-decode-execute step.  `None` means the machine is still
    /// running.  Beside preserving the machine invariant, the step satisfies
    /// [`step_rel`], which pins the effect, the success conditions and the
    /// fault kind of every instruction: running past the code is an internal
    /// fault; a nested `Return` leaves exactly `stack_base + 1` values; a
    /// `Jump` moves only the program counter, by its delta (a delta of zero
    /// acts as a no-op); `Reserve(n)` appends exactly `n` placeholder slots
    /// (none for zero); dividing two numbers faults exactly when the divisor
    /// is a zero; a built closure lands in its slot with its capture vector
    /// resolved per descriptor; and so on through the instruction set.
    #[verifier::rlimit(100)]
    #[verifier::spinoff_prover]
    pub fn step<H: Host>(&mut self, host: &mut H, gc: &mut GC) -> (r: Option<ExecStatus>)
        requires
            old(self).wf(),
        ensures
            final(self).wf(),
            final(self).functions@ == old(self).functions@,
            final(self).debug == old(self).debug,
            !(r == Some(ExecStatus::OutOfSteps)),
            step_rel(*old(self), *final(self), r),
    {
        let fetched = self.next_instr();
        let instr = match fetched {
            Some(i) => i,
            None => {
                return Some(ExecStatus::Fault(ErrorKind::InternalInvariant));
            },
        };
        match instr {
            Instruction::Return => {
                proof {
                    if closable(*old(self)) {
                        assert(closable(*self));
                    }
                }
                let r2 = self.do_return(gc);
                proof {
                    assert(old(self).callstack@.len() == 0 ==> r2 == Some(ExecStatus::Done));
                    assert(old(self).callstack@.len() > 0 && old(self).stack@.len() > old(self).frame.stack_base && closable(*old(self)) ==> r2 is None);
                    assert(r2 == Some(ExecStatus::Done) ==> self.stack@ == old(self).stack@
                        && self.heap == old(self).heap && self.callstack@ == old(self).callstack@
                        && self.open_upvalues@ == old(self).open_upvalues@ && self.trace_out@
                        == old(self).trace_out@);
                    assert(r2 is None ==> self.stack@ == old(self).stack@.take(
                        old(self).frame.stack_base as int,
                    ).push(old(self).stack@.last()) && self.callstack@ == old(self).callstack@.drop_last() && self.trace_out@ == old(self).trace_out@);
                }
                r2
            },
            Instruction::PushConstant(cid) => {
                let fn_idx = self.cur_fn_idx();
                let cv = match self.functions[fn_idx as usize].chunk.try_get_const(cid) {
                    Some(c) => c.clone(),
                    None => {
                        return Some(ExecStatus::Fault(ErrorKind::InternalInvariant));
                    },
                };
                proof {
                    assert(crate::chunk::plain_const(cv)) by {
                        assert(self.functions@[fn_idx as int].wf());
                    }
                }
                self.push_wf(cv);
                None
            },
            Instruction::PushTrue => {
                self.push_wf(Value::Bool(true));
                None
            },
            Instruction::PushFalse => {
                self.push_wf(Value::Bool(false));
                None
            },
            Instruction::PushNull => {
                self.push_wf(Value::Null);
                None
            },
            Instruction::Negate => {
                if self.stack.len() == 0 || self.stack.len() <= self.frame.stack_base {
                    return Some(ExecStatus::Fault(ErrorKind::InternalInvariant));
                }
                let v = self.get_stack_top().clone();
                proof {
                    assert(v == old(self).stack@.last());
                }
                match self.coerce_num(host, &v) {
                    Ok(b) => {
                        proof {
                            assert(coerced_bits(v) matches Some(b2) ==> b2 == b);
                        }
                        self.replace_one(Value::Number(num::negate_bits(b)));
                        proof {
                            assert(replaces1(*old(self), *self, Value::Number(num::negated(b))));
                        }
                        None
                    },
                    Err(e) => Some(ExecStatus::Fault(e)),
                }
            },
            Instruction::ToNumber => {
                if self.stack.len() == 0 || self.stack.len() <= self.frame.stack_base {
                    return Some(ExecStatus::Fault(ErrorKind::InternalInvariant));
                }
                let v = self.get_stack_top().clone();
                proof {
                    assert(v == old(self).stack@.last());
                }
                match self.coerce_num(host, &v) {
                    Ok(b) => {
                        proof {
                            assert(coerced_bits(v) matches Some(b2) ==> b2 == b);
                        }
                        self.replace_one(Value::Number(b));
                        proof {
                            assert(replaces1(*old(self), *self, Value::Number(b)));
                        }
                        None
                    },
                    Err(e) => Some(ExecStatus::Fault(e)),
                }
            },
            Instruction::Not => {
                if self.stack.len() == 0 || self.stack.len() <= self.frame.stack_base {
                    return Some(ExecStatus::Fault(ErrorKind::InternalInvariant));
                }
                let t = self.get_stack_top().is_truthy();
                self.replace_one(Value::Bool(!t));
                None
            },
            Instruction::Add => {
                let (a, b) = match self.read_two() {
                    Some((a, b)) => (a.clone(), b.clone()),
                    None => {
                        return Some(ExecStatus::Fault(ErrorKind::InternalInvariant));
                    },
                };
                match (&a, &b) {
                    (Value::Number(x), Value::Number(y)) => {
                        let rb = host.arith(HostOp::Add, *x, *y);
                        self.replace_two(Value::Number(rb));
                        proof {
                            assert(replaces2(*old(self), *self, Value::Number(rb)));
                        }
                        None
                    },
                    (Value::String(x), _) => {
                        match self.value_text(host, &b) {
                            Ok(t) => {
                                let ghost tv = t@;
                                let joined = x.clone().concat(t.as_str());
                                self.replace_two(Value::String(joined));
                                proof {
                                    assert(replaces2(*old(self), *self, Value::String(joined)));
                                    assert(joined@ == x@ + tv);
                                }
                                None
                            },
                            Err(e) => Some(ExecStatus::Fault(e)),
                        }
                    },
                    (_, Value::String(y)) => {
                        match self.value_text(host, &a) {
                            Ok(t) => {
                                let ghost tv = t@;
                                let joined = t.concat(y.as_str());
                                self.replace_two(Value::String(joined));
                                proof {
                                    assert(replaces2(*old(self), *self, Value::String(joined)));
                                    assert(joined@ == tv + y@);
                                }
                                None
                            },
                            Err(e) => Some(ExecStatus::Fault(e)),
                        }
                    },
                    _ => Some(ExecStatus::Fault(ErrorKind::TypeMismatch)),
                }
            },
            Instruction::Subtract => {
                let nums = match self.read_two() {
                    Some((a, b)) => match (a, b) {
                        (Value::Number(x), Value::Number(y)) => Some((*x, *y)),
                        _ => None,
                    },
                    None => {
                        return Some(ExecStatus::Fault(ErrorKind::InternalInvariant));
                    },
                };
                match nums {
                    Some((x, y)) => {
                        let rb = host.arith(HostOp::Sub, x, y);
                        self.replace_two(Value::Number(rb));
                        proof {
                            assert(replaces2(*old(self), *self, Value::Number(rb)));
                        }
                        None
                    },
                    None => Some(ExecStatus::Fault(ErrorKind::TypeMismatch)),
                }
            },
            Instruction::Multiply => {
                let nums = match self.read_two() {
                    Some((a, b)) => match (a, b) {
                        (Value::Number(x), Value::Number(y)) => Some((*x, *y)),
                        _ => None,
                    },
                    None => {
                        return Some(ExecStatus::Fault(ErrorKind::InternalInvariant));
                    },
                };
                match nums {
                    Some((x, y)) => {
                        let rb = host.arith(HostOp::Mul, x, y);
                        self.replace_two(Value::Number(rb));
                        proof {
                            assert(replaces2(*old(self), *self, Value::Number(rb)));
                        }
                        None
                    },
                    None => Some(ExecStatus::Fault(ErrorKind::TypeMismatch)),
                }
            },
            Instruction::Divide => {
                let nums = match self.read_two() {
                    Some((a, b)) => match (a, b) {
                        (Value::Number(x), Value::Number(y)) => Some((*x, *y)),
                        _ => None,
                    },
                    None => {
                        return Some(ExecStatus::Fault(ErrorKind::InternalInvariant));
                    },
                };
                match nums {
                    Some((x, y)) => {
                        if num::zero_bits(y) {
                            Some(ExecStatus::Fault(ErrorKind::DivideByZero))
                        } else {
                            let rb = host.arith(HostOp::Div, x, y);
                            self.replace_two(Value::Number(rb));
                            proof {
                                assert(replaces2(*old(self), *self, Value::Number(rb)));
                            }
                            None
                        }
                    },
                    None => Some(ExecStatus::Fault(ErrorKind::TypeMismatch)),
                }
            },
            Instruction::Equal => {
                let eq = match self.read_two() {
                    Some((a, b)) => a.is_equal_to(b),
                    None => {
                        return Some(ExecStatus::Fault(ErrorKind::InternalInvariant));
                    },
                };
                self.replace_two(Value::Bool(eq));
                None
            },
            Instruction::NotEqual => {
                let eq = match self.read_two() {
                    Some((a, b)) => a.is_equal_to(b),
                    None => {
                        return Some(ExecStatus::Fault(ErrorKind::InternalInvariant));
                    },
                };
                self.replace_two(Value::Bool(!eq));
                None
            },
            Instruction::Greater => {
                let cmp = match self.read_two() {
                    Some((a, b)) => a.is_greater_than(b),
                    None => {
                        return Some(ExecStatus::Fault(ErrorKind::InternalInvariant));
                    },
                };
                match cmp {
                    Ok(g) => {
                        self.replace_two(Value::Bool(g));
                        None
                    },
                    Err(e) => Some(ExecStatus::Fault(e)),
                }
            },
            Instruction::Less => {
                let cmp = match self.read_two() {
                    Some((a, b)) => b.is_greater_than(a),
                    None => {
                        return Some(ExecStatus::Fault(ErrorKind::InternalInvariant));
                    },
                };
                match cmp {
                    Ok(g) => {
                        self.replace_two(Value::Bool(g));
                        None
                    },
                    Err(e) => Some(ExecStatus::Fault(e)),
                }
            },
            Instruction::GreaterEqual => {
                let cmp = match self.read_two() {
                    Some((a, b)) => {
                        if a.is_equal_to(b) {
                            Ok(true)
                        } else {
                            a.is_greater_than(b)
                        }
                    },
                    None => {
                        return Some(ExecStatus::Fault(ErrorKind::InternalInvariant));
                    },
                };
                match cmp {
                    Ok(g) => {
                        self.replace_two(Value::Bool(g));
                        None
                    },
                    Err(e) => Some(ExecStatus::Fault(e)),
                }
            },
            Instruction::LessEqual => {
                let cmp = match self.read_two() {
                    Some((a, b)) => {
                        if a.is_equal_to(b) {
                            Ok(true)
                        } else {
                            b.is_greater_than(a)
                        }
                    },
                    None => {
                        return Some(ExecStatus::Fault(ErrorKind::InternalInvariant));
                    },
                };
                match cmp {
                    Ok(g) => {
                        self.replace_two(Value::Bool(g));
                        None
                    },
                    Err(e) => Some(ExecStatus::Fault(e)),
                }
            },
            Instruction::Trace => {
                if self.stack.len() == 0 {
                    return Some(ExecStatus::Fault(ErrorKind::InternalInvariant));
                }
                let top = self.get_stack_top().clone();
                proof {
                    assert(top == old(self).stack@.last());
                }
                let body = match self.value_text(host, &top) {
                    Ok(t) => t,
                    Err(_) => String::new(),
                };
                proof {
                    assert(text_of(top) matches Some(t2) ==> body@ == t2);
                    assert(top is Uninitialized ==> body@ == Seq::<char>::empty());
                }
                let fn_idx = self.cur_fn_idx();
                let line = self.functions[fn_idx as usize].chunk.get_line_no(
                    self.frame.cur_instr - 1,
                );
                proof {
                    assert(line == old(self).cur_chunk().spec_line_no(old(self).frame.cur_instr));
                }
                let mut s = "[".to_owned();
                text::push_decimal(&mut s, line as u64);
                s.append("] ");
                s.append(body.as_str());
                proof {
                    assert(s@ =~= trace_line(line, body@));
                }
                self.trace_out.push(s);
                proof {
                    assert(self.trace_out@ == old(self).trace_out@.push(s));
                }
                None
            },
            Instruction::Pop => {
                if self.stack.len() <= self.frame.stack_base {
                    return Some(ExecStatus::Fault(ErrorKind::InternalInvariant));
                }
                self.drop_top();
                None
            },
            Instruction::GetLocal(i) => {
                let base = self.frame.stack_base;
                if (i as usize) >= self.stack.len() - base {
                    return Some(ExecStatus::Fault(ErrorKind::InternalInvariant));
                }
                let v = self.stack[base + i as usize].clone();
                proof {
                    assert(self.value_wf(self.stack@[base + i as int]));
                }
                self.push_wf(v);
                None
            },
            Instruction::SetLocal(i) => {
                let base = self.frame.stack_base;
                if self.stack.len() == 0 || (i as usize) >= self.stack.len() - base {
                    return Some(ExecStatus::Fault(ErrorKind::InternalInvariant));
                }
                let v = self.get_stack_top().clone();
                proof {
                    assert(self.value_wf(self.stack@.last()));
                }
                self.write_slot(base + i as usize, v);
                None
            },
            Instruction::Declare(i) => {
                let base = self.frame.stack_base;
                if self.stack.len() <= base {
                    return Some(ExecStatus::Fault(ErrorKind::InternalInvariant));
                }
                if (i as usize) >= self.stack.len() - 1 - base {
                    return Some(ExecStatus::Fault(ErrorKind::InternalInvariant));
                }
                let v = self.get_stack_top().clone();
                proof {
                    assert(self.value_wf(self.stack@.last()));
                }
                self.drop_top();
                self.write_slot(base + i as usize, v);
                None
            },
            Instruction::Reserve(cnt) => {
                if (cnt as usize) > usize::MAX - self.stack.len() {
                    return Some(ExecStatus::Fault(ErrorKind::InternalInvariant));
                }
                let ghost pre = *self;
                let newlen = self.stack.len() + cnt as usize;
                self.stack.resize(newlen, Value::Uninitialized);
                proof {
                    assert(self.stack@ =~= pre.stack@ + Seq::new(
                        cnt as nat,
                        |q: int| Value::Uninitialized,
                    )) by {
                        assert forall|q: int|
                            pre.stack@.len() <= q < self.stack@.len() implies self.stack@[q]
                            == Value::Uninitialized by {
                            assert(vstd::pervasive::cloned::<Value>(
                                Value::Uninitialized,
                                self.stack@[q],
                            ));
                        }
                    }
                    lemma_wf_stack(pre, *self);
                }
                None
            },
            Instruction::Jump(d) => {
                if self.advance_pc(d) {
                    None
                } else {
                    Some(ExecStatus::Fault(ErrorKind::InternalInvariant))
                }
            },
            Instruction::JumpIfTruthy(d) => {
                if self.stack.len() == 0 {
                    return Some(ExecStatus::Fault(ErrorKind::InternalInvariant));
                }
                if self.get_stack_top().is_truthy() {
                    if !self.advance_pc(d) {
                        return Some(ExecStatus::Fault(ErrorKind::InternalInvariant));
                    }
                }
                None
            },
            Instruction::JumpIfFalsy(d) => {
                if self.stack.len() == 0 {
                    return Some(ExecStatus::Fault(ErrorKind::InternalInvariant));
                }
                if !self.get_stack_top().is_truthy() {
                    if !self.advance_pc(d) {
                        return Some(ExecStatus::Fault(ErrorKind::InternalInvariant));
                    }
                }
                None
            },
            Instruction::PopAndJumpIfFalsy(d) => {
                if self.stack.len() <= self.frame.stack_base {
                    return Some(ExecStatus::Fault(ErrorKind::InternalInvariant));
                }
                let t = self.get_stack_top().is_truthy();
                self.drop_top();
                if !t {
                    if !self.advance_pc(d) {
                        return Some(ExecStatus::Fault(ErrorKind::InternalInvariant));
                    }
                }
                None
            },
            Instruction::GetUpValue(i) => {
                let uid = match self.heap.get(self.frame.clsr_id) {
                    ObjType::Closure(c) => {
                        if (i as usize) < c.upvalues.len() {
                            c.upvalues[i as usize]
                        } else {
                            return Some(ExecStatus::Fault(ErrorKind::InternalInvariant));
                        }
                    },
                    _ => {
                        proof {
                            assert(false);
                        }
                        0
                    },
                };
                proof {
                    assert(self.closure_wf(self.cur_closure()));
                    assert(self.obj_wf(self.heap.obj(uid)));
                }
                let v = match self.heap.upvalue_loc(uid) {
                    UpValueLocation::Stack(slot) => {
                        if (slot as usize) >= self.stack.len() {
                            return Some(ExecStatus::Fault(ErrorKind::InternalInvariant));
                        }
                        self.stack[slot as usize].clone()
                    },
                    UpValueLocation::Heap(cell) => self.heap.get_val(cell),
                };
                proof {
                    assert(self.value_wf(v)) by {
                        match self.heap.obj(uid)->UpValue_0.loc {
                            UpValueLocation::Stack(slot) => {
                                assert(self.value_wf(self.stack@[slot as int]));
                            },
                            UpValueLocation::Heap(cell) => {
                                assert(self.obj_wf(self.heap.obj(cell)));
                            },
                        }
                    }
                }
                self.push_wf(v);
                None
            },
            Instruction::SetUpValue(i) => {
                if self.stack.len() == 0 {
                    return Some(ExecStatus::Fault(ErrorKind::InternalInvariant));
                }
                let v = self.get_stack_top().clone();
                proof {
                    assert(self.value_wf(self.stack@.last()));
                }
                let uid = match self.heap.get(self.frame.clsr_id) {
                    ObjType::Closure(c) => {
                        if (i as usize) < c.upvalues.len() {
                            c.upvalues[i as usize]
                        } else {
                            return Some(ExecStatus::Fault(ErrorKind::InternalInvariant));
                        }
                    },
                    _ => {
                        proof {
                            assert(false);
                        }
                        0
                    },
                };
                proof {
                    assert(self.closure_wf(self.cur_closure()));
                    assert(self.obj_wf(self.heap.obj(uid)));
                }
                match self.heap.upvalue_loc(uid) {
                    UpValueLocation::Stack(slot) => {
                        if (slot as usize) >= self.stack.len() {
                            return Some(ExecStatus::Fault(ErrorKind::InternalInvariant));
                        }
                        self.write_slot(slot as usize, v);
                    },
                    UpValueLocation::Heap(cell) => {
                        let ghost pre = *self;
                        self.heap.set_val(cell, v);
                        proof {
                            lemma_wf_after_boxset(pre, *self, cell);
                        }
                    },
                }
                None
            },
            Instruction::FnCall(argc) => self.do_fncall(argc, gc),
            Instruction::Closure(dest, fid) => self.do_closure(dest, fid, gc),
        }
    }


    /// Runs until the program returns from its outermost frame, a fault
    /// aborts it, or `max_steps` instructions have been dispatched.  The
    /// result refines the dispatch relation: some chain of [`step_rel`]
    /// transitions leads from the starting machine to the final one, ending
    /// in the returned status -- so `Done` comes only from a `Return` in the
    /// root frame, and every fault is an instruction's own fault condition.
    pub fn execute<H: Host>(&mut self, gc: &mut GC, host: &mut H, max_steps: u64) -> (r:
        ExecStatus)
        requires
            old(self).wf(),
        ensures
            final(self).wf(),
            final(self).functions@ == old(self).functions@,
            final(self).debug == old(self).debug,
            exists|path: Seq<VM>|
                #[trigger] is_run(path, *old(self)) && if r == ExecStatus::OutOfSteps {
                    path.last() == *final(self) && path.len() == max_steps + 1
                } else {
                    path.len() <= max_steps && step_rel(path.last(), *final(self), Some(r))
                },
            max_steps == 0 ==> r == ExecStatus::OutOfSteps && *final(self) == *old(self),
            max_steps > 0 && old(self).fetched() is None ==> r == ExecStatus::Fault(
                ErrorKind::InternalInvariant,
            ),
            max_steps > 0 && old(self).fetched() == Some(Instruction::Return) && old(
                self,
            ).callstack@.len() == 0 ==> r == ExecStatus::Done && final(self).stack@ == old(
                self,
            ).stack@ && final(self).heap == old(self).heap && final(self).trace_out@ == old(
                self,
            ).trace_out@,
            r == ExecStatus::Done ==> final(self).callstack@.len() == 0 && 1 <= final(self).frame.cur_instr <= final(self).cur_chunk().code@.len() && final(self).cur_chunk().code@[final(self).frame.cur_instr - 1] == Instruction::Return,
    {
        let mut fuel: u64 = max_steps;
        let ghost mut path: Seq<VM> = seq![*old(self)];
        loop
            invariant
                self.wf(),
                self.functions@ == old(self).functions@,
                self.debug == old(self).debug,
                fuel <= max_steps,
                fuel == max_steps ==> *self == *old(self),
                fuel < max_steps ==> !(old(self).fetched() is None),
                fuel < max_steps ==> !(old(self).fetched() == Some(Instruction::Return) && old(
                    self,
                ).callstack@.len() == 0),
                is_run(path, *old(self)),
                path.last() == *self,
                path.len() == max_steps - fuel + 1,
            decreases fuel,
        {
            if fuel == 0 {
                return ExecStatus::OutOfSteps;
            }
            fuel = fuel - 1;
            let ghost pre = *self;
            match self.step(host, gc) {
                Some(st) => {
                    proof {
                        if st == ExecStatus::Done {
                            assert(pre.fetched() == Some(Instruction::Return)
                                && pre.callstack@.len() == 0);
                            assert(self.cur_chunk() == pre.cur_chunk()) by {
                                assert(self.heap == pre.heap);
                                assert(self.frame.clsr_id == pre.frame.clsr_id);
                            }
                            assert(self.frame.cur_instr == pre.frame.cur_instr + 1);
                            assert(pre.cur_chunk().code@[pre.frame.cur_instr as int]
                                == Instruction::Return);
                        }
                        assert(step_rel(path.last(), *self, Some(st)));
                        assert(st != ExecStatus::OutOfSteps);
                        assert(path.len() <= max_steps);
                        assert(is_run(path, *old(self)));
                    }
                    return st;
                },
                None => {
                    proof {
                        let old_path = path;
                        path = path.push(*self);
                        assert(is_run(path, *old(self))) by {
                            assert forall|i: int|
                                0 <= i < path.len() - 1 implies step_rel(
                                #[trigger] path[i],
                                path[i + 1],
                                None,
                            ) by {
                                if i < old_path.len() - 1 {
                                    assert(path[i] == old_path[i]);
                                    assert(path[i + 1] == old_path[i + 1]);
                                } else {
                                    assert(path[i] == pre);
                                    assert(path[i + 1] == *self);
                                }
                            }
                        }
                    }
                },
            }
        }
    }



    /// A collection point: when the count of live objects has grown past
    /// the threshold, one full collection runs (an id survives exactly when
    /// it was live and reachable from the roots) and the threshold becomes
    /// half again the surviving object count; below the threshold nothing
    /// happens.
    pub fn gc_point(&mut self, gc: &mut GC)
        requires
            old(self).wf(),
        ensures
            final(self).wf(),
            final(self).stack@ == old(self).stack@,
            final(self).frame == old(self).frame,
            final(self).callstack@ == old(self).callstack@,
            final(self).open_upvalues@ == old(self).open_upvalues@,
            final(self).functions@ == old(self).functions@,
            final(self).trace_out@ == old(self).trace_out@,
            final(self).debug == old(self).debug,
            forall|j: u32|
                #[trigger] final(self).heap.live(j) ==> old(self).heap.live(j)
                    && final(self).heap.obj(j) == old(self).heap.obj(j),
            final(self).heap.mem@.len() == old(self).heap.mem@.len(),
            old(self).heap.spec_live_count() <= old(self).gc_thr as int ==> final(self).heap
                == old(self).heap && final(self).gc_thr == old(self).gc_thr,
            old(self).heap.spec_live_count() > old(self).gc_thr as int ==> {
                &&& forall|id: u32|
                    final(self).heap.live(id) <==> (old(self).heap.live(id) && crate::gc::reachable(
                        old(self).heap,
                        crate::gc::root_ids(*old(self)),
                        id,
                    ))
                &&& final(self).gc_thr as int == thr_grow(final(self).heap.spec_live_count())
            },
    {
        if self.heap.live_count() > self.gc_thr {
            gc.collect_garbage(self);
            let post = self.heap.live_count();
            let half: usize = post / 2;
            self.gc_thr = if post <= usize::MAX - half {
                post + half
            } else {
                usize::MAX
            };
        }
    }

}


/// Well-formedness survives heap growth: if liveness only grows, old objects
/// are unchanged, the rest of the machine is unchanged, and every newly live
/// object is well formed and not an open upvalue, the machine stays well
/// formed.
proof fn lemma_wf_grow(pre: VM, post: VM)
    requires
        pre.wf(),
        post.functions@ == pre.functions@,
        post.stack@ == pre.stack@,
        post.frame == pre.frame,
        post.callstack@ == pre.callstack@,
        post.open_upvalues@ == pre.open_upvalues@,
        post.heap.mem@.len() <= u32::MAX as int,
        forall|j: u32|
            pre.heap.live(j) ==> post.heap.live(j) && post.heap.obj(j) == pre.heap.obj(j),
        forall|j: u32|
            #[trigger] post.heap.live(j) && !pre.heap.live(j) ==> post.obj_wf(post.heap.obj(j))
                && !(post.heap.obj(j) matches ObjType::UpValue(u) && u.loc is Stack),
    ensures
        post.wf(),
{
    assert(post.frames_wf());
    assert forall|id: u32| #[trigger] post.heap.live(id) implies post.obj_wf(
        post.heap.obj(id),
    ) by {
        if pre.heap.live(id) {
            assert(pre.obj_wf(pre.heap.obj(id)));
            match pre.heap.obj(id) {
                ObjType::Closure(c) => {
                    assert forall|k: int| 0 <= k < c.upvalues@.len() implies post.heap.live(
                        #[trigger] c.upvalues@[k],
                    ) && post.heap.obj(c.upvalues@[k]) is UpValue by {
                        assert(pre.heap.live(c.upvalues@[k]));
                    }
                },
                ObjType::UpValue(_) => {},
                ObjType::BoxedValue(_) => {},
            }
        }
    }
    assert(post.stack_wf()) by {
        assert forall|i: int| 0 <= i < post.stack@.len() implies post.value_wf(
            #[trigger] post.stack@[i],
        ) by {
            assert(pre.value_wf(pre.stack@[i]));
        }
    }
    assert(post.open_wf()) by {
        assert forall|k: int| 0 <= k < post.open_upvalues@.len() implies {
            &&& post.heap.live(#[trigger] post.open_upvalues@[k])
            &&& post.heap.obj(post.open_upvalues@[k]) is UpValue
        } by {
            assert(pre.heap.live(pre.open_upvalues@[k]));
        }
    }
    assert(post.open_complete()) by {
        assert forall|id: u32|
            #[trigger] post.heap.live(id) && (post.heap.obj(id) matches ObjType::UpValue(u)
                && u.loc is Stack) implies post.open_upvalues@.contains(id) by {
            assert(pre.heap.live(id));
            assert(pre.open_upvalues@.contains(id));
        }
    }
}




/// Restoring the caller after `Return` keeps the machine well formed: the
/// stack is cut back to the returning frame's base with the return value on
/// top, every remaining open upvalue points below the base, and the heap is
/// untouched.
#[verifier::rlimit(100)]
#[verifier::spinoff_prover]
proof fn lemma_return_wf(mid: VM, post: VM, base: usize, val: Value)
    requires
        mid.wf(),
        base == mid.frame.stack_base,
        mid.callstack@.len() > 0,
        mid.stack@.len() > base,
        val == mid.stack@.last(),
        post.heap == mid.heap,
        post.functions@ == mid.functions@,
        post.open_upvalues@ == mid.open_upvalues@,
        post.callstack@ == mid.callstack@.drop_last(),
        post.frame == mid.callstack@.last(),
        post.stack@ == mid.stack@.take(base as int).push(val),
        forall|k: int|
            0 <= k < mid.open_upvalues@.len() ==> (mid.heap.obj(
                #[trigger] mid.open_upvalues@[k],
            ) matches ObjType::UpValue(u) && u.loc matches UpValueLocation::Stack(slot) && (
            slot as int) < base as int),
    ensures
        post.wf(),
{
    assert(post.stack@.len() == base + 1);
    assert(post.frames_wf()) by {
        assert(mid.frame_wf(mid.callstack@.last()));
        assert forall|i: int| 0 <= i < post.callstack@.len() implies post.frame_wf(
            #[trigger] post.callstack@[i],
        ) by {
            assert(mid.frame_wf(mid.callstack@[i]));
            assert(mid.callstack@[i].stack_base <= mid.callstack@.last().stack_base);
        }
    }
    assert forall|k: int| 0 <= k < post.open_upvalues@.len() implies {
        &&& post.heap.live(#[trigger] post.open_upvalues@[k])
        &&& post.heap.obj(post.open_upvalues@[k]) matches ObjType::UpValue(u) && u.loc is Stack
    } by {
        assert(mid.heap.live(mid.open_upvalues@[k]));
    }
    assert(post.heap_wf()) by {
        assert forall|id: u32| #[trigger] post.heap.live(id) implies post.obj_wf(
            post.heap.obj(id),
        ) by {
            assert(mid.heap.live(id));
            assert(mid.obj_wf(mid.heap.obj(id)));
            match post.heap.obj(id) {
                ObjType::UpValue(u) => {
                    match u.loc {
                        UpValueLocation::Stack(slot) => {
                            assert(mid.open_upvalues@.contains(id));
                            let kx = choose|kx: int|
                                0 <= kx < mid.open_upvalues@.len() && mid.open_upvalues@[kx] == id;
                            assert(mid.heap.obj(mid.open_upvalues@[kx]) matches ObjType::UpValue(
                                u2,
                            ) && u2.loc matches UpValueLocation::Stack(s2) && (s2 as int)
                                < base as int);
                            assert((slot as int) < post.stack@.len());
                        },
                        UpValueLocation::Heap(_) => {},
                    }
                },
                ObjType::Closure(_) => {},
                ObjType::BoxedValue(_) => {},
            }
        }
    }
    assert(post.stack_wf()) by {
        assert forall|i: int| 0 <= i < post.stack@.len() implies post.value_wf(
            #[trigger] post.stack@[i],
        ) by {
            if i < base as int {
                assert(post.stack@[i] == mid.stack@[i]);
                assert(mid.value_wf(mid.stack@[i]));
            } else {
                assert(post.stack@[i] == mid.stack@.last());
                assert(mid.value_wf(mid.stack@.last()));
            }
        }
    }
    assert(post.open_complete());
    assert(post.funcs_wf());
}


/// Abandoning an upvalue-closing pass mid-way still leaves the machine well
/// formed: liveness only grew, upvalues stayed upvalues, and every upvalue
/// still open was on the list already.
proof fn lemma_close_bail(orig: VM, cur: VM, remaining: Seq<u32>, i: int, n: int)
    requires
        orig.wf(),
        n == orig.open_upvalues@.len(),
        0 <= i < n,
        cur.stack@ == orig.stack@,
        cur.frame == orig.frame,
        cur.callstack@ == orig.callstack@,
        cur.open_upvalues@ == orig.open_upvalues@,
        cur.functions@ == orig.functions@,
        cur.heap.mem@.len() <= u32::MAX as int,
        forall|j: u32|
            orig.heap.live(j) ==> cur.heap.live(j) && (orig.heap.obj(j) is UpValue
                || cur.heap.obj(j) == orig.heap.obj(j)),
        forall|j: u32|
            #[trigger] cur.heap.live(j) && !orig.heap.live(j) ==> cur.heap.obj(j) is BoxedValue,
        forall|j: u32|
            orig.heap.live(j) && orig.heap.obj(j) is UpValue ==> (#[trigger] cur.heap.obj(
                j,
            )) is UpValue,
        forall|j: u32| #[trigger] cur.heap.live(j) ==> cur.obj_wf(cur.heap.obj(j)),
        forall|k: int|
            0 <= k < remaining.len() ==> orig.open_upvalues@.contains(#[trigger] remaining[k]),
        forall|j: u32|
            #[trigger] cur.heap.live(j) && (cur.heap.obj(j) matches ObjType::UpValue(u)
                && u.loc is Stack) ==> remaining.contains(j) || exists|k: int|
                i <= k < n && orig.open_upvalues@[k] == j,
    ensures
        cur.wf(),
{
    assert(cur.frames_wf());
    assert(cur.stack_wf()) by {
        assert forall|ix: int| 0 <= ix < cur.stack@.len() implies cur.value_wf(
            #[trigger] cur.stack@[ix],
        ) by {
            assert(orig.value_wf(orig.stack@[ix]));
        }
    }
    assert(cur.open_wf()) by {
        assert forall|k: int| 0 <= k < cur.open_upvalues@.len() implies {
            &&& cur.heap.live(#[trigger] cur.open_upvalues@[k])
            &&& cur.heap.obj(cur.open_upvalues@[k]) is UpValue
        } by {
            assert(orig.heap.live(orig.open_upvalues@[k]));
            assert(orig.heap.obj(orig.open_upvalues@[k]) is UpValue);
        }
    }
    assert(cur.open_complete()) by {
        assert forall|j: u32|
            #[trigger] cur.heap.live(j) && (cur.heap.obj(j) matches ObjType::UpValue(u)
                && u.loc is Stack) implies cur.open_upvalues@.contains(j) by {
            if remaining.contains(j) {
                let kx = choose|kx: int| 0 <= kx < remaining.len() && remaining[kx] == j;
                assert(orig.open_upvalues@.contains(remaining[kx]));
            } else {
                let kw = choose|kw: int| i <= kw < n && orig.open_upvalues@[kw] == j;
                assert(cur.open_upvalues@[kw] == j);
            }
        }
    }
}


/// Overwriting the value in a boxed cell with a well-formed value keeps the
/// machine well formed.
proof fn lemma_wf_after_boxset(pre: VM, post: VM, cell: u32)
    requires
        pre.wf(),
        pre.heap.live(cell),
        pre.heap.obj(cell) is BoxedValue,
        post.functions@ == pre.functions@,
        post.stack@ == pre.stack@,
        post.frame == pre.frame,
        post.callstack@ == pre.callstack@,
        post.open_upvalues@ == pre.open_upvalues@,
        post.heap.mem@.len() == pre.heap.mem@.len(),
        post.heap.live(cell),
        post.heap.obj(cell) matches ObjType::BoxedValue(v) && post.value_wf(v),
        forall|j: u32|
            j != cell ==> post.heap.live(j) == pre.heap.live(j) && (pre.heap.live(j)
                ==> post.heap.obj(j) == pre.heap.obj(j)),
    ensures
        post.wf(),
{
    assert forall|j: u32| post.heap.live(j) == pre.heap.live(j) by {}
    assert(post.frames_wf());
    assert forall|id: u32| #[trigger] post.heap.live(id) implies post.obj_wf(
        post.heap.obj(id),
    ) by {
        assert(pre.obj_wf(pre.heap.obj(id)));
        if id != cell {
            match pre.heap.obj(id) {
                ObjType::Closure(c) => {
                    assert forall|k: int| 0 <= k < c.upvalues@.len() implies post.heap.live(
                        #[trigger] c.upvalues@[k],
                    ) && post.heap.obj(c.upvalues@[k]) is UpValue by {
                        assert(pre.heap.live(c.upvalues@[k]));
                    }
                },
                ObjType::UpValue(_) => {},
                ObjType::BoxedValue(_) => {},
            }
        }
    }
    assert(post.stack_wf()) by {
        assert forall|i: int| 0 <= i < post.stack@.len() implies post.value_wf(
            #[trigger] post.stack@[i],
        ) by {
            assert(pre.value_wf(pre.stack@[i]));
        }
    }
    assert(post.open_wf()) by {
        assert forall|k: int| 0 <= k < post.open_upvalues@.len() implies {
            &&& post.heap.live(#[trigger] post.open_upvalues@[k])
            &&& post.heap.obj(post.open_upvalues@[k]) is UpValue
        } by {
            assert(pre.heap.live(pre.open_upvalues@[k]));
        }
    }
    assert(post.open_complete()) by {
        assert forall|id: u32|
            #[trigger] post.heap.live(id) && (post.heap.obj(id) matches ObjType::UpValue(u)
                && u.loc is Stack) implies post.open_upvalues@.contains(id) by {
            assert(pre.heap.live(id));
        }
    }
}


/// Well-formedness survives a pure stack rewrite: heap, frames (up to the
/// program counter), and lists unchanged, the new stack still covers the
/// frame bases, and every slot holds a well-formed value.
proof fn lemma_wf_stack(pre: VM, post: VM)
    requires
        pre.wf(),
        post.heap == pre.heap,
        post.functions@ == pre.functions@,
        post.frame.clsr_id == pre.frame.clsr_id,
        post.frame.stack_base == pre.frame.stack_base,
        post.callstack@ == pre.callstack@,
        post.open_upvalues@ == pre.open_upvalues@,
        post.frame.stack_base <= post.stack@.len(),
        forall|i: int| 0 <= i < post.stack@.len() ==> pre.value_wf(#[trigger] post.stack@[i]),
    ensures
        post.wf(),
{
    assert(post.frames_wf()) by {
        assert forall|i: int| 0 <= i < post.callstack@.len() implies post.frame_wf(
            #[trigger] post.callstack@[i],
        ) by {
            assert(pre.frame_wf(pre.callstack@[i]));
            assert(pre.callstack@[i].stack_base <= pre.frame.stack_base);
        }
    }
    assert forall|id: u32| #[trigger] post.heap.live(id) implies post.obj_wf(
        post.heap.obj(id),
    ) by {
        assert(pre.obj_wf(pre.heap.obj(id)));
    }
    assert(post.stack_wf());
    assert(post.open_wf()) by {
        assert forall|k: int| 0 <= k < post.open_upvalues@.len() implies {
            &&& post.heap.live(#[trigger] post.open_upvalues@[k])
            &&& post.heap.obj(post.open_upvalues@[k]) is UpValue
        } by {
            assert(pre.heap.live(pre.open_upvalues@[k]));
        }
    }
    assert(post.open_complete());
}

/// Everything but the stack and the program counter is untouched.
pub open spec fn same_ctrl(pre: VM, post: VM) -> bool {
    &&& post.heap == pre.heap
    &&& post.callstack@ == pre.callstack@
    &&& post.open_upvalues@ == pre.open_upvalues@
    &&& post.functions@ == pre.functions@
    &&& post.trace_out@ == pre.trace_out@
    &&& post.frame.clsr_id == pre.frame.clsr_id
    &&& post.frame.stack_base == pre.frame.stack_base
    &&& post.debug == pre.debug
    &&& post.gc_thr == pre.gc_thr
}

/// One ordinary step: only the program counter advanced, by one.
pub open spec fn stepped(pre: VM, post: VM) -> bool {
    same_ctrl(pre, post) && post.frame.cur_instr == pre.frame.cur_instr + 1
}

/// One step that pushed `v` and changed nothing else.
pub open spec fn pushes(pre: VM, post: VM, v: Value) -> bool {
    stepped(pre, post) && post.stack@ == pre.stack@.push(v)
}

/// One step that replaced the topmost value by `v`.
pub open spec fn replaces1(pre: VM, post: VM, v: Value) -> bool {
    stepped(pre, post) && post.stack@ == pre.stack@.drop_last().push(v)
}

/// One step that replaced the two topmost values by `v`.
pub open spec fn replaces2(pre: VM, post: VM, v: Value) -> bool {
    stepped(pre, post) && post.stack@ == pre.stack@.drop_last().drop_last().push(v)
}

/// The bits a value coerces to without the host: a number itself, one for
/// `true`, zero for `false` and `Null`; nothing for text (the host parses)
/// and for the unconvertible values.
pub open spec fn coerced_bits(v: Value) -> Option<u64> {
    match v {
        Value::Number(b) => Some(b),
        Value::Bool(true) => Some(num::ONE_BITS),
        Value::Bool(false) => Some(num::ZERO_BITS),
        Value::Null => Some(num::ZERO_BITS),
        _ => None,
    }
}

/// The printable text of a value, where the host has no say: everything but
/// numbers (the host renders those) and the reserved placeholder (which has
/// no text).
pub open spec fn text_of(v: Value) -> Option<Seq<char>> {
    match v {
        Value::Null => Some("null"@),
        Value::Bool(b) => Some(if b { "true"@ } else { "false"@ }),
        Value::String(s) => Some(s@),
        Value::Heap(id) => Some(obj_text(id)),
        Value::Number(_) => None,
        Value::Uninitialized => None,
    }
}

/// The conditions under which closing the active frame's upvalues cannot
/// fail: room for the boxed cells, and every open slot at or above the base
/// within the stack.
pub open spec fn closable(vm: VM) -> bool {
    &&& vm.open_upvalues@.len() < u32::MAX as int
    &&& vm.heap.mem@.len() <= u32::MAX as int - vm.open_upvalues@.len()
    &&& forall|k: int|
        0 <= k < vm.open_upvalues@.len() ==> (vm.heap.obj(#[trigger] vm.open_upvalues@[k])
            matches ObjType::UpValue(u) ==> (u.loc matches UpValueLocation::Stack(slot) ==> ((
        slot as int) >= vm.frame.stack_base ==> (slot as int) < vm.stack@.len())))
}

/// The collector's next trigger threshold: half again the surviving count.
pub open spec fn thr_grow(n: int) -> int {
    if n + n / 2 <= usize::MAX as int {
        n + n / 2
    } else {
        usize::MAX as int
    }
}

/// One dispatch of the machine: the per-instruction transition relation.
/// `r` is `None` while the machine keeps running, or the terminal status.
/// Every clause of [`VM::step`]'s behaviour lives here, so a whole run is a
/// chain of these transitions.
pub open spec fn step_rel(pre: VM, post: VM, r: Option<ExecStatus>) -> bool {
    &&& (pre.fetched() is None ==> r == Some(ExecStatus::Fault(
                ErrorKind::InternalInvariant,
            ))
    )
    &&& (r == Some(ExecStatus::Done) ==> pre.fetched() == Some(Instruction::Return)
                && pre.callstack@.len() == 0 && post.frame.clsr_id == pre.frame.clsr_id && post.frame.stack_base == pre.frame.stack_base && post.frame.cur_instr == pre.frame.cur_instr + 1
    )
    &&& ((pre.fetched() == Some(Instruction::Return) && r is None) ==> post.stack@.len()
                == pre.frame.stack_base + 1 && post.frame == pre.callstack@.last()
    )
    &&& (forall|d: u16|
                (pre.fetched() == Some(Instruction::Jump(d)) && r is None) ==> post.stack@
                    == pre.stack@ && post.heap == pre.heap && post.callstack@
                    == pre.callstack@ && post.open_upvalues@ == pre.open_upvalues@
                    && post.trace_out@ == pre.trace_out@ && post.frame.clsr_id
                    == pre.frame.clsr_id && post.frame.stack_base == pre.frame.stack_base
                    && post.frame.cur_instr == pre.frame.cur_instr + 1 + d
    )
    &&& (forall|nres: u16|
                (pre.fetched() == Some(Instruction::Reserve(nres)) && r is None) ==> post.stack@
                    == pre.stack@ + Seq::new(nres as nat, |q: int| Value::Uninitialized)
                    && post.heap == pre.heap && post.frame.cur_instr == pre.frame.cur_instr
                    + 1
    )
    &&& ((pre.fetched() == Some(Instruction::Divide) && pre.stack@.len() >= 2
                && pre.stack@.len() > pre.frame.stack_base) ==> (pre.stack@[pre.stack@.len()
                - 2] matches Value::Number(nla) ==> (pre.stack@.last() matches Value::Number(nlb) ==> {
                &&& (num::is_zero(nlb) ==> r == Some(ExecStatus::Fault(ErrorKind::DivideByZero)))
                &&& (!num::is_zero(nlb) ==> r is None && post.stack@.len() == pre.stack@.len()
                    - 1 && post.stack@.last() is Number)
            }))
    )
    &&& (forall|dd: u16, ff: u16|
                (pre.fetched() == Some(Instruction::Closure(dd, ff)) && r is None) ==> (post.stack@[pre.frame.stack_base
                    + dd as int] matches Value::Heap(cid) && post.heap.live(cid) && post.heap.obj(
                    cid,
                ) is Closure)
    )
    &&& (// -- the per-instruction effects ------------------------------
            forall|cid: u16|
                pre.fetched() == Some(Instruction::PushConstant(cid)) ==> {
                    &&& ((cid as int) < pre.cur_chunk().consts@.len() ==> r is None
                        && pushes(pre, post, pre.cur_chunk().consts@[cid as int]))
                    &&& ((cid as int) >= pre.cur_chunk().consts@.len() ==> r == Some(
                        ExecStatus::Fault(ErrorKind::InternalInvariant),
                    ))
                }
    )
    &&& (pre.fetched() == Some(Instruction::PushTrue) ==> r is None && pushes(
                pre,
                post,
                Value::Bool(true),
            )
    )
    &&& (pre.fetched() == Some(Instruction::PushFalse) ==> r is None && pushes(
                pre,
                post,
                Value::Bool(false),
            )
    )
    &&& (pre.fetched() == Some(Instruction::PushNull) ==> r is None && pushes(
                pre,
                post,
                Value::Null,
            )
    )
    &&& (pre.fetched() == Some(Instruction::Not) ==> {
                &&& (pre.stack@.len() > pre.frame.stack_base ==> r is None && replaces1(
                    pre,
                    post,
                    Value::Bool(!crate::value::truthy(pre.stack@.last())),
                ))
                &&& (pre.stack@.len() <= pre.frame.stack_base ==> r == Some(
                    ExecStatus::Fault(ErrorKind::InternalInvariant),
                ))
            }
    )
    &&& (pre.fetched() == Some(Instruction::Negate) && pre.stack@.len() <= pre.frame.stack_base ==> r == Some(ExecStatus::Fault(ErrorKind::InternalInvariant))
    )
    &&& (pre.fetched() == Some(Instruction::Negate) && pre.stack@.len() > pre.frame.stack_base ==> {
                let v = pre.stack@.last();
                &&& (coerced_bits(v) matches Some(b) ==> r is None && replaces1(
                    pre,
                    post,
                    Value::Number(num::negated(b)),
                ))
                &&& (v is String ==> (r is None && exists|b: u64|
                    replaces1(pre, post, Value::Number(b))) || r == Some(
                    ExecStatus::Fault(ErrorKind::TypeCoercion),
                ))
                &&& ((v is Heap || v is Uninitialized) ==> r == Some(ExecStatus::Fault(
                    ErrorKind::TypeCoercion,
                )))
            }
    )
    &&& (pre.fetched() == Some(Instruction::ToNumber) && pre.stack@.len() <= pre.frame.stack_base ==> r == Some(ExecStatus::Fault(ErrorKind::InternalInvariant))
    )
    &&& (pre.fetched() == Some(Instruction::ToNumber) && pre.stack@.len() > pre.frame.stack_base ==> {
                let v = pre.stack@.last();
                &&& (coerced_bits(v) matches Some(b) ==> r is None && replaces1(
                    pre,
                    post,
                    Value::Number(b),
                ))
                &&& (v is String ==> (r is None && exists|b: u64|
                    replaces1(pre, post, Value::Number(b))) || r == Some(
                    ExecStatus::Fault(ErrorKind::TypeCoercion),
                ))
                &&& ((v is Heap || v is Uninitialized) ==> r == Some(ExecStatus::Fault(
                    ErrorKind::TypeCoercion,
                )))
            }
    )
    &&& ((pre.fetched() == Some(Instruction::Add) || pre.fetched() == Some(
                Instruction::Subtract,
            ) || pre.fetched() == Some(Instruction::Multiply) || pre.fetched() == Some(
                Instruction::Divide,
            ) || pre.fetched() == Some(Instruction::Equal) || pre.fetched() == Some(
                Instruction::NotEqual,
            ) || pre.fetched() == Some(Instruction::Greater) || pre.fetched() == Some(
                Instruction::Less,
            ) || pre.fetched() == Some(Instruction::GreaterEqual) || pre.fetched()
                == Some(Instruction::LessEqual)) && !binop_pre(pre) ==> r == Some(
                ExecStatus::Fault(ErrorKind::InternalInvariant),
            )
    )
    &&& (pre.fetched() == Some(Instruction::Subtract) && binop_pre(pre) ==> {
                let a = pre.stack@[pre.stack@.len() - 2];
                let b = pre.stack@.last();
                &&& (a is Number && b is Number ==> r is None && exists|rb: u64|
                    replaces2(pre, post, Value::Number(rb)))
                &&& (!(a is Number && b is Number) ==> r == Some(ExecStatus::Fault(
                    ErrorKind::TypeMismatch,
                )))
            }
    )
    &&& (pre.fetched() == Some(Instruction::Multiply) && binop_pre(pre) ==> {
                let a = pre.stack@[pre.stack@.len() - 2];
                let b = pre.stack@.last();
                &&& (a is Number && b is Number ==> r is None && exists|rb: u64|
                    replaces2(pre, post, Value::Number(rb)))
                &&& (!(a is Number && b is Number) ==> r == Some(ExecStatus::Fault(
                    ErrorKind::TypeMismatch,
                )))
            }
    )
    &&& (pre.fetched() == Some(Instruction::Divide) && binop_pre(pre) ==> {
                let a = pre.stack@[pre.stack@.len() - 2];
                let b = pre.stack@.last();
                &&& (a matches Value::Number(x) ==> (b matches Value::Number(y) ==> {
                    &&& (num::is_zero(y) ==> r == Some(ExecStatus::Fault(ErrorKind::DivideByZero)))
                    &&& (!num::is_zero(y) ==> r is None && exists|rb: u64|
                        replaces2(pre, post, Value::Number(rb)))
                }))
                &&& (!(a is Number && b is Number) ==> r == Some(ExecStatus::Fault(
                    ErrorKind::TypeMismatch,
                )))
            }
    )
    &&& (pre.fetched() == Some(Instruction::Add) && binop_pre(pre) ==> {
                let a = pre.stack@[pre.stack@.len() - 2];
                let b = pre.stack@.last();
                &&& (a is Number && b is Number ==> r is None && exists|rb: u64|
                    replaces2(pre, post, Value::Number(rb)))
                &&& (a matches Value::String(x) ==> {
                    &&& (text_of(b) matches Some(t) ==> r is None && exists|joined: String|
                        replaces2(pre, post, Value::String(joined)) && joined@
                            == x@ + t)
                    &&& (b is Number ==> r is None && exists|joined: String, t: Seq<char>|
                        replaces2(pre, post, Value::String(joined)) && joined@
                            == x@ + t)
                    &&& (b is Uninitialized ==> r == Some(ExecStatus::Fault(
                        ErrorKind::TypeCoercion,
                    )))
                })
                &&& (!(a is String) ==> (b matches Value::String(y) ==> {
                    &&& (text_of(a) matches Some(t) ==> r is None && exists|joined: String|
                        replaces2(pre, post, Value::String(joined)) && joined@ == t
                            + y@)
                    &&& (a is Number ==> r is None && exists|joined: String, t: Seq<char>|
                        replaces2(pre, post, Value::String(joined)) && joined@ == t
                            + y@)
                    &&& (a is Uninitialized ==> r == Some(ExecStatus::Fault(
                        ErrorKind::TypeCoercion,
                    )))
                }))
                &&& (!(a is String) && !(b is String) && !(a is Number && b is Number) ==> r
                    == Some(ExecStatus::Fault(ErrorKind::TypeMismatch)))
            }
    )
    &&& (pre.fetched() == Some(Instruction::Equal) && binop_pre(pre) ==> r is None
                && replaces2(
                pre,
                post,
                Value::Bool(
                    crate::value::value_eq(
                        pre.stack@[pre.stack@.len() - 2],
                        pre.stack@.last(),
                    ),
                ),
            )
    )
    &&& (pre.fetched() == Some(Instruction::NotEqual) && binop_pre(pre) ==> r
                is None && replaces2(
                pre,
                post,
                Value::Bool(
                    !crate::value::value_eq(
                        pre.stack@[pre.stack@.len() - 2],
                        pre.stack@.last(),
                    ),
                ),
            )
    )
    &&& (pre.fetched() == Some(Instruction::Greater) && binop_pre(pre) ==> {
                let a = pre.stack@[pre.stack@.len() - 2];
                let b = pre.stack@.last();
                &&& (crate::value::comparable(a, b) ==> r is None && replaces2(
                    pre,
                    post,
                    Value::Bool(crate::value::value_gt(a, b)),
                ))
                &&& (!crate::value::comparable(a, b) ==> r == Some(ExecStatus::Fault(
                    ErrorKind::TypeMismatch,
                )))
            }
    )
    &&& (pre.fetched() == Some(Instruction::Less) && binop_pre(pre) ==> {
                let a = pre.stack@[pre.stack@.len() - 2];
                let b = pre.stack@.last();
                &&& (crate::value::comparable(a, b) ==> r is None && replaces2(
                    pre,
                    post,
                    Value::Bool(crate::value::value_gt(b, a)),
                ))
                &&& (!crate::value::comparable(a, b) ==> r == Some(ExecStatus::Fault(
                    ErrorKind::TypeMismatch,
                )))
            }
    )
    &&& (pre.fetched() == Some(Instruction::GreaterEqual) && binop_pre(pre) ==> {
                let a = pre.stack@[pre.stack@.len() - 2];
                let b = pre.stack@.last();
                &&& (crate::value::value_eq(a, b) ==> r is None && replaces2(
                    pre,
                    post,
                    Value::Bool(true),
                ))
                &&& (!crate::value::value_eq(a, b) && crate::value::comparable(a, b) ==> r is None
                    && replaces2(
                    pre,
                    post,
                    Value::Bool(crate::value::value_gt(a, b)),
                ))
                &&& (!crate::value::value_eq(a, b) && !crate::value::comparable(a, b) ==> r
                    == Some(ExecStatus::Fault(ErrorKind::TypeMismatch)))
            }
    )
    &&& (pre.fetched() == Some(Instruction::LessEqual) && binop_pre(pre) ==> {
                let a = pre.stack@[pre.stack@.len() - 2];
                let b = pre.stack@.last();
                &&& (crate::value::value_eq(a, b) ==> r is None && replaces2(
                    pre,
                    post,
                    Value::Bool(true),
                ))
                &&& (!crate::value::value_eq(a, b) && crate::value::comparable(a, b) ==> r is None
                    && replaces2(
                    pre,
                    post,
                    Value::Bool(crate::value::value_gt(b, a)),
                ))
                &&& (!crate::value::value_eq(a, b) && !crate::value::comparable(a, b) ==> r
                    == Some(ExecStatus::Fault(ErrorKind::TypeMismatch)))
            }
    )
    &&& (pre.fetched() == Some(Instruction::Trace) ==> {
                &&& (pre.stack@.len() == 0 ==> r == Some(ExecStatus::Fault(
                    ErrorKind::InternalInvariant,
                )))
                &&& (pre.stack@.len() > 0 ==> r is None && post.stack@ == pre.stack@ && post.heap == pre.heap && post.callstack@ == pre.callstack@ && post.open_upvalues@ == pre.open_upvalues@ && post.frame.cur_instr == pre.frame.cur_instr + 1 && post.frame.clsr_id
                    == pre.frame.clsr_id && post.frame.stack_base == pre.frame.stack_base && {
                    let line = pre.cur_chunk().spec_line_no(pre.frame.cur_instr);
                    let top = pre.stack@.last();
                    &&& (text_of(top) matches Some(t) ==> exists|s2: String|
                        post.trace_out@ == pre.trace_out@.push(s2) && s2@
                            == trace_line(line, t))
                    &&& (top is Number ==> exists|s2: String, t: Seq<char>|
                        post.trace_out@ == pre.trace_out@.push(s2) && s2@
                            == trace_line(line, t))
                    &&& (top is Uninitialized ==> exists|s2: String|
                        post.trace_out@ == pre.trace_out@.push(s2) && s2@
                            == trace_line(line, Seq::<char>::empty()))
                })
            }
    )
    &&& (pre.fetched() == Some(Instruction::Pop) ==> {
                &&& (pre.stack@.len() > pre.frame.stack_base ==> r is None && stepped(
                    pre,
                    post,
                ) && post.stack@ == pre.stack@.drop_last())
                &&& (pre.stack@.len() <= pre.frame.stack_base ==> r == Some(
                    ExecStatus::Fault(ErrorKind::InternalInvariant),
                ))
            }
    )
    &&& (forall|i: u16|
                pre.fetched() == Some(Instruction::GetLocal(i)) ==> {
                    &&& ((pre.frame.stack_base + i as int) < pre.stack@.len() ==> r
                        is None && pushes(
                        pre,
                        post,
                        pre.stack@[pre.frame.stack_base + i as int],
                    ))
                    &&& (pre.frame.stack_base + i as int >= pre.stack@.len() ==> r
                        == Some(ExecStatus::Fault(ErrorKind::InternalInvariant)))
                }
    )
    &&& (forall|i: u16|
                pre.fetched() == Some(Instruction::SetLocal(i)) ==> {
                    &&& ((pre.frame.stack_base + i as int) < pre.stack@.len() ==> r
                        is None && stepped(pre, post) && post.stack@ == pre.stack@.update(
                        pre.frame.stack_base + i as int,
                        pre.stack@.last(),
                    ))
                    &&& (pre.frame.stack_base + i as int >= pre.stack@.len() ==> r
                        == Some(ExecStatus::Fault(ErrorKind::InternalInvariant)))
                }
    )
    &&& (forall|i: u16|
                pre.fetched() == Some(Instruction::Declare(i)) ==> {
                    &&& (pre.stack@.len() > pre.frame.stack_base && (pre.frame.stack_base + i as int) < pre.stack@.len() - 1 ==> r is None
                        && stepped(pre, post) && post.stack@ == pre.stack@.drop_last().update(
                        pre.frame.stack_base + i as int,
                        pre.stack@.last(),
                    ))
                    &&& (pre.stack@.len() <= pre.frame.stack_base || pre.frame.stack_base + i as int >= pre.stack@.len() - 1 ==> r == Some(
                        ExecStatus::Fault(ErrorKind::InternalInvariant),
                    ))
                }
    )
    &&& (forall|nres: u16|
                pre.fetched() == Some(Instruction::Reserve(nres)) && pre.stack@.len()
                    + nres as int <= usize::MAX as int ==> r is None
    )
    &&& (forall|d: u16|
                pre.fetched() == Some(Instruction::Jump(d)) && pre.frame.cur_instr + 1
                    + d as int <= usize::MAX as int ==> r is None
    )
    &&& (forall|d: u16|
                pre.fetched() == Some(Instruction::JumpIfTruthy(d)) ==> {
                    &&& (pre.stack@.len() == 0 ==> r == Some(ExecStatus::Fault(
                        ErrorKind::InternalInvariant,
                    )))
                    &&& (pre.stack@.len() > 0 && !crate::value::truthy(
                        pre.stack@.last(),
                    ) ==> r is None && stepped(pre, post) && post.stack@
                        == pre.stack@)
                    &&& (pre.stack@.len() > 0 && crate::value::truthy(pre.stack@.last())
                        && pre.frame.cur_instr + 1 + d as int <= usize::MAX as int ==> r
                        is None && same_ctrl(pre, post) && post.stack@ == pre.stack@ && post.frame.cur_instr == pre.frame.cur_instr + 1
                        + d as int)
                }
    )
    &&& (forall|d: u16|
                pre.fetched() == Some(Instruction::JumpIfFalsy(d)) ==> {
                    &&& (pre.stack@.len() == 0 ==> r == Some(ExecStatus::Fault(
                        ErrorKind::InternalInvariant,
                    )))
                    &&& (pre.stack@.len() > 0 && crate::value::truthy(pre.stack@.last())
                        ==> r is None && stepped(pre, post) && post.stack@
                        == pre.stack@)
                    &&& (pre.stack@.len() > 0 && !crate::value::truthy(
                        pre.stack@.last(),
                    ) && pre.frame.cur_instr + 1 + d as int <= usize::MAX as int ==> r
                        is None && same_ctrl(pre, post) && post.stack@ == pre.stack@ && post.frame.cur_instr == pre.frame.cur_instr + 1
                        + d as int)
                }
    )
    &&& (forall|d: u16|
                pre.fetched() == Some(Instruction::PopAndJumpIfFalsy(d)) ==> {
                    &&& (pre.stack@.len() <= pre.frame.stack_base ==> r == Some(
                        ExecStatus::Fault(ErrorKind::InternalInvariant),
                    ))
                    &&& (pre.stack@.len() > pre.frame.stack_base
                        && crate::value::truthy(pre.stack@.last()) ==> r is None && stepped(
                        pre,
                        post,
                    ) && post.stack@ == pre.stack@.drop_last())
                    &&& (pre.stack@.len() > pre.frame.stack_base
                        && !crate::value::truthy(pre.stack@.last()) && pre.frame.cur_instr + 1 + d as int <= usize::MAX as int ==> r is None
                        && same_ctrl(pre, post) && post.stack@ == pre.stack@.drop_last() && post.frame.cur_instr == pre.frame.cur_instr + 1 + d as int)
                }
    )
    &&& (forall|i: u16|
                pre.fetched() == Some(Instruction::GetUpValue(i)) ==> {
                    &&& ((i as int) >= pre.cur_closure().upvalues@.len() ==> r == Some(
                        ExecStatus::Fault(ErrorKind::InternalInvariant),
                    ))
                    &&& ((i as int) < pre.cur_closure().upvalues@.len() ==> {
                        let u = pre.heap.obj(
                            pre.cur_closure().upvalues@[i as int],
                        )->UpValue_0;
                        &&& (u.loc matches UpValueLocation::Stack(slot) ==> {
                            &&& ((slot as int) < pre.stack@.len() ==> r is None && pushes(
                                pre,
                                post,
                                pre.stack@[slot as int],
                            ))
                            &&& ((slot as int) >= pre.stack@.len() ==> r == Some(
                                ExecStatus::Fault(ErrorKind::InternalInvariant),
                            ))
                        })
                        &&& (u.loc matches UpValueLocation::Heap(cell) ==> r is None && pushes(
                            pre,
                            post,
                            pre.heap.obj(cell)->BoxedValue_0,
                        ))
                    })
                }
    )
    &&& (forall|i: u16|
                pre.fetched() == Some(Instruction::SetUpValue(i)) ==> {
                    &&& (pre.stack@.len() == 0 ==> r == Some(ExecStatus::Fault(
                        ErrorKind::InternalInvariant,
                    )))
                    &&& (pre.stack@.len() > 0 && (i as int) >= pre.cur_closure().upvalues@.len() ==> r == Some(ExecStatus::Fault(
                        ErrorKind::InternalInvariant,
                    )))
                    &&& (pre.stack@.len() > 0 && (i as int) < pre.cur_closure().upvalues@.len() ==> {
                        let u = pre.heap.obj(
                            pre.cur_closure().upvalues@[i as int],
                        )->UpValue_0;
                        &&& (u.loc matches UpValueLocation::Stack(slot) ==> {
                            &&& ((slot as int) < pre.stack@.len() ==> r is None && stepped(
                                pre,
                                post,
                            ) && post.stack@ == pre.stack@.update(
                                slot as int,
                                pre.stack@.last(),
                            ))
                            &&& ((slot as int) >= pre.stack@.len() ==> r == Some(
                                ExecStatus::Fault(ErrorKind::InternalInvariant),
                            ))
                        })
                        &&& (u.loc matches UpValueLocation::Heap(cell) ==> r is None && post.stack@ == pre.stack@ && post.callstack@ == pre.callstack@ && post.open_upvalues@ == pre.open_upvalues@
                            && post.trace_out@ == pre.trace_out@ && post.frame.cur_instr == pre.frame.cur_instr + 1 && post.frame.clsr_id == pre.frame.clsr_id && post.frame.stack_base
                            == pre.frame.stack_base && post.heap.live(cell) && post.heap.obj(cell) == ObjType::BoxedValue(pre.stack@.last()) && (forall|
                            j2: u32,
                        |
                            j2 != cell ==> post.heap.live(j2) == pre.heap.live(j2) && (
                            pre.heap.live(j2) ==> post.heap.obj(j2) == pre.heap.obj(j2))))
                    })
                }
    )
    &&& (forall|argc: u16|
                pre.fetched() == Some(Instruction::FnCall(argc)) ==> {
                    &&& (pre.stack@.len() < 1 + argc as int ==> r == Some(ExecStatus::Fault(
                        ErrorKind::InternalInvariant,
                    )))
                    &&& (pre.stack@.len() >= 1 + argc as int && (pre.stack@.len() - 1
                        - argc as int) < pre.frame.stack_base ==> r == Some(
                        ExecStatus::Fault(ErrorKind::InternalInvariant),
                    ))
                    &&& (pre.stack@.len() >= 1 + argc as int && (pre.stack@.len() - 1
                        - argc as int) >= pre.frame.stack_base ==> {
                        let callee = pre.stack@[pre.stack@.len() - 1 - argc as int];
                        &&& (!(callee is Heap) ==> r == Some(ExecStatus::Fault(
                            ErrorKind::NotCallable,
                        )))
                        &&& (callee matches Value::Heap(id) ==> {
                            &&& (!(pre.heap.obj(id) is Closure) ==> r == Some(
                                ExecStatus::Fault(ErrorKind::NotCallable),
                            ))
                            &&& (pre.heap.obj(id) is Closure ==> r is None && post.stack@ == pre.stack@ && post.frame == (CallFrame {
                                clsr_id: id,
                                cur_instr: 0,
                                stack_base: (pre.stack@.len() - 1 - argc as int) as usize,
                            }) && post.callstack@ == pre.callstack@.push(
                                CallFrame {
                                    clsr_id: pre.frame.clsr_id,
                                    cur_instr: (pre.frame.cur_instr + 1) as usize,
                                    stack_base: pre.frame.stack_base,
                                },
                            ) && post.open_upvalues@ == pre.open_upvalues@ && post.trace_out@ == pre.trace_out@)
                        })
                    })
                }
    )
    &&& (// the returning frame's region is replaced by the return value
            pre.fetched() == Some(Instruction::Return) && pre.callstack@.len() == 0
                ==> r == Some(ExecStatus::Done) && post.stack@ == pre.stack@ && post.heap == pre.heap
                && post.callstack@ == pre.callstack@ && post.open_upvalues@
                == pre.open_upvalues@ && post.trace_out@ == pre.trace_out@
    )
    &&& (pre.fetched() == Some(Instruction::Return) && pre.callstack@.len() > 0
                && pre.stack@.len() <= pre.frame.stack_base ==> r == Some(
                ExecStatus::Fault(ErrorKind::InternalInvariant),
            )
    )
    &&& (pre.fetched() == Some(Instruction::Return) && pre.callstack@.len() > 0
                && pre.stack@.len() > pre.frame.stack_base && closable(pre)
                ==> r is None
    )
    &&& (pre.fetched() == Some(Instruction::Return) && r is None ==> post.stack@
                == pre.stack@.take(pre.frame.stack_base as int).push(
                pre.stack@.last(),
            ) && post.callstack@ == pre.callstack@.drop_last() && post.trace_out@ == pre.trace_out@
    )
    &&& (// a buildable closure lands exactly in its slot, its capture
            // vector resolved per descriptor
            forall|dd: u16, ff: u16|
                pre.fetched() == Some(Instruction::Closure(dd, ff)) ==> {
                    &&& (closure_buildable(pre, dd, ff) ==> r is None)
                    &&& (r is None ==> closure_built(pre, post, dd, ff) && post.callstack@ == pre.callstack@ && post.trace_out@ == pre.trace_out@)
                }
    )
}

/// A chain of dispatches that never reached a terminal status: consecutive
/// states are related by [`step_rel`] with `None`.
pub open spec fn is_run(path: Seq<VM>, start: VM) -> bool {
    &&& path.len() >= 1
    &&& path[0] == start
    &&& forall|i: int| 0 <= i < path.len() - 1 ==> step_rel(#[trigger] path[i], path[i + 1], None)
}

/// The ids of the freshly created open upvalues among a closure's capture
/// vector `ups`, in descriptor order: the entries of `ups` whose descriptor
/// is a local capture.
pub open spec fn fresh_captures(descs: Seq<UpValueIndex>, ups: Seq<u32>) -> Seq<u32>
    decreases descs.len(),
{
    if descs.len() == 0 {
        Seq::empty()
    } else {
        fresh_captures(descs.drop_last(), ups.drop_last()) + if descs.last().is_local {
            seq![ups[ups.len() - 1]]
        } else {
            Seq::empty()
        }
    }
}

/// What a `Closure(dest, fid)` instruction builds: the new closure sits in
/// local slot `dest` and its capture vector follows the function's
/// descriptors in order -- a non-local descriptor reuses the enclosing
/// closure's upvalue, a local one is a fresh open upvalue over the defining
/// frame's slot -- and the open-upvalue list gains exactly the fresh local
/// captures, in order, at its tail.
pub open spec fn closure_built(pre: VM, post: VM, dest: u16, fid: u16) -> bool {
    exists|cid: u32|
        {
            &&& post.stack@ == pre.stack@.update(
                pre.frame.stack_base + dest as int,
                Value::Heap(cid),
            )
            &&& post.heap.live(cid)
            &&& (post.heap.obj(cid) matches ObjType::Closure(c) && {
                let descs = pre.functions@[fid as int].upvals@;
                &&& c.fn_idx == fid
                &&& c.upvalues@.len() == descs.len()
                &&& post.open_upvalues@ == pre.open_upvalues@ + fresh_captures(descs, c.upvalues@)
                &&& forall|k: int|
                    #![trigger descs[k]]
                    0 <= k < descs.len() ==> {
                        let d = descs[k];
                        &&& (!d.is_local ==> c.upvalues@[k] == pre.cur_closure().upvalues@[d.id as int])
                        &&& (d.is_local ==> !pre.heap.live(c.upvalues@[k]) && post.heap.live(
                            c.upvalues@[k],
                        ) && post.heap.obj(c.upvalues@[k]) == ObjType::UpValue(
                            UpValue {
                                loc: UpValueLocation::Stack(
                                    (pre.frame.stack_base + d.id as int) as u16,
                                ),
                            },
                        ))
                    }
            })
        }
}

/// The conditions under which a `Closure` instruction cannot fail: the
/// destination slot and the function exist, the id space has room for the
/// captures and the closure, and every capture descriptor resolves.
pub open spec fn closure_buildable(pre: VM, dest: u16, fid: u16) -> bool {
    &&& (pre.frame.stack_base + dest as int) < pre.stack@.len()
    &&& (fid as int) < pre.functions@.len()
    &&& pre.heap.mem@.len() + pre.functions@[fid as int].upvals@.len() + 1 <= u32::MAX as int
    &&& forall|k: int|
        0 <= k < pre.functions@[fid as int].upvals@.len() ==> {
            let d = #[trigger] pre.functions@[fid as int].upvals@[k];
            &&& (d.is_local ==> (pre.frame.stack_base + d.id as int) <= u16::MAX as int
                && (pre.frame.stack_base + d.id as int) < pre.stack@.len())
            &&& (!d.is_local ==> (d.id as int) < pre.cur_closure().upvalues@.len())
        }
}

/// A binary operator has its two operands and may replace them by one.
pub open spec fn binop_pre(pre: VM) -> bool {
    pre.stack@.len() >= 2 && pre.stack@.len() > pre.frame.stack_base
}

/// The printable form of a heap reference.
pub open spec fn obj_text(id: u32) -> Seq<char> {
    "<obj "@ + crate::text::decimal(id as u64) + ">"@
}

/// One trace line: the source line in brackets, a space, then the text.
pub open spec fn trace_line(line: u32, body: Seq<char>) -> Seq<char> {
    "["@ + crate::text::decimal(line as u64) + "] "@ + body
}

} // verus!
