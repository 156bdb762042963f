//! Compiled code: chunks, functions, and the line map.

use crate::instruction::{Instruction, UpValueIndex};
use crate::value::Value;
use vstd::prelude::*;

verus! {

/// A value the compiler may place in a constant pool: anything but a heap
/// reference (those exist only at run time) or the reserved placeholder.
pub open spec fn plain_const(v: Value) -> bool {
    !(v matches Value::Heap(_)) && !(v matches Value::Uninitialized)
}

/// A compiled unit: an instruction stream, a constant pool indexed by `u16`,
/// and a map from instruction index to source line.
pub struct Chunk {
    pub code: Vec<Instruction>,
    pub consts: Vec<Value>,
    pub lines: Vec<u32>,
}

impl Chunk {
    /// Every constant of the pool is a compile-time value.
    pub open spec fn wf(self) -> bool {
        forall|i: int| 0 <= i < self.consts@.len() ==> plain_const(#[trigger] self.consts@[i])
    }

    /// An empty chunk.
    pub fn new() -> (c: Chunk)
        ensures
            c.code@.len() == 0,
            c.consts@.len() == 0,
            c.lines@.len() == 0,
            c.wf(),
    {
        Chunk { code: Vec::new(), consts: Vec::new(), lines: Vec::new() }
    }

    /// Appends an instruction together with its source line.
    pub fn add_instr(&mut self, instr: Instruction, line: u32)
        ensures
            final(self).code@ == old(self).code@.push(instr),
            final(self).lines@ == old(self).lines@.push(line),
            final(self).consts@ == old(self).consts@,
            old(self).wf() ==> final(self).wf(),
    {
        self.code.push(instr);
        self.lines.push(line);
    }

    /// Appends a constant to the pool.
    pub fn add_const(&mut self, v: Value)
        requires
            plain_const(v),
        ensures
            final(self).consts@ == old(self).consts@.push(v),
            final(self).code@ == old(self).code@,
            final(self).lines@ == old(self).lines@,
            old(self).wf() ==> final(self).wf(),
    {
        self.consts.push(v);
    }

    /// Appends an entry to the line map alone.
    pub fn add_line(&mut self, line: u32)
        ensures
            final(self).lines@ == old(self).lines@.push(line),
            final(self).code@ == old(self).code@,
            final(self).consts@ == old(self).consts@,
            old(self).wf() ==> final(self).wf(),
    {
        self.lines.push(line);
    }

    /// The instruction at `i`, or nothing past the end.
    pub fn try_get_instr(&self, i: usize) -> (r: Option<Instruction>)
        ensures
            i < self.code@.len() ==> r == Some(self.code@[i as int]),
            i >= self.code@.len() ==> r is None,
    {
        if i < self.code.len() {
            Some(self.code[i])
        } else {
            None
        }
    }

    /// The constant with pool id `id`, or nothing if the pool is shorter.
    pub fn try_get_const(&self, id: u16) -> (r: Option<&Value>)
        ensures
            (id as int) < self.consts@.len() ==> r == Some(&self.consts@[id as int]),
            (id as int) >= self.consts@.len() ==> r is None,
    {
        if (id as usize) < self.consts.len() {
            Some(&self.consts[id as usize])
        } else {
            None
        }
    }

    /// Checks that every constant of the pool is a compile-time value.
    pub fn is_wf(&self) -> (r: bool)
        ensures
            r == self.wf(),
    {
        let mut i: usize = 0;
        while i < self.consts.len()
            invariant
                i <= self.consts@.len(),
                forall|j: int| 0 <= j < i ==> plain_const(#[trigger] self.consts@[j]),
            decreases self.consts@.len() - i,
        {
            let ok = match &self.consts[i] {
                Value::Heap(_) => false,
                Value::Uninitialized => false,
                _ => true,
            };
            if !ok {
                return false;
            }
            i = i + 1;
        }
        true
    }

    /// The source line recorded for instruction `i`.
    pub open spec fn spec_line_no(self, i: usize) -> u32 {
        if (i as int) < self.lines@.len() {
            self.lines@[i as int]
        } else if self.lines@.len() > 0 {
            self.lines@.last()
        } else {
            0
        }
    }

    /// The source line of instruction `i`; past the end of the map the last
    /// recorded line answers, and zero if there is none.
    pub fn get_line_no(&self, i: usize) -> (r: u32)
        ensures
            r == self.spec_line_no(i),
    {
        if i < self.lines.len() {
            self.lines[i]
        } else if self.lines.len() > 0 {
            self.lines[self.lines.len() - 1]
        } else {
            0
        }
    }
}

/// A function object: its code, its arity, the local slots of the defining
/// frame that nested closures capture (`captured`), and the descriptors of
/// this function's own captures (`upvals`), in resolution order.
///
/// `captured` is compiler metadata: the runtime closes upvalues from the
/// machine's open-upvalue list, which names the same slots wherever a
/// capture was actually made, so the interpreter never needs to consult it.
pub struct Function {
    pub chunk: Chunk,
    pub arity: u16,
    pub captured: Vec<u16>,
    pub upvals: Vec<UpValueIndex>,
}

impl Function {
    /// A function is well formed when its chunk is.
    pub open spec fn wf(self) -> bool {
        self.chunk.wf()
    }

    /// A function over `chunk` that captures nothing.
    pub fn from_chunk(chunk: Chunk) -> (f: Function)
        ensures
            f.chunk == chunk,
            f.captured@.len() == 0,
            f.upvals@.len() == 0,
            chunk.wf() ==> f.wf(),
    {
        Function { chunk, arity: 0, captured: Vec::new(), upvals: Vec::new() }
    }
}

} // verus!
