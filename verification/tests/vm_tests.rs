use kwvm::chunk::{Chunk, Function};
use kwvm::error::ErrorKind;
use kwvm::gc::GC;
use kwvm::instruction::{Instruction, UpValueIndex};
use kwvm::value::Value;
use kwvm::vm::{ExecStatus, Host, HostOp, VM};

struct RealHost;

impl Host for RealHost {
    fn arith(&mut self, op: HostOp, a: u64, b: u64) -> u64 {
        let x = f64::from_bits(a);
        let y = f64::from_bits(b);
        let r = match op {
            HostOp::Add => x + y,
            HostOp::Sub => x - y,
            HostOp::Mul => x * y,
            HostOp::Div => x / y,
        };
        r.to_bits()
    }

    fn parse_num(&mut self, s: &str) -> Option<u64> {
        s.trim().parse::<f64>().ok().map(|f| f.to_bits())
    }

    fn format_num(&mut self, b: u64) -> String {
        format!("{}", f64::from_bits(b))
    }
}

fn num(x: f64) -> Value {
    Value::Number(x.to_bits())
}

fn run(vm: &mut VM) -> ExecStatus {
    let mut gc = GC::new();
    let mut host = RealHost;
    vm.execute(&mut gc, &mut host, 10_000_000)
}

fn plain_fn(chunk: Chunk) -> Function {
    Function { chunk, arity: 0, captured: Vec::new(), upvals: Vec::new() }
}

#[test]
fn test_negate() {
    let mut chk = Chunk::new();

    chk.add_const(num(5.0));
    chk.add_instr(Instruction::PushConstant(0), 0);
    chk.add_instr(Instruction::Negate, 0);
    chk.add_instr(Instruction::Return, 0);

    let mut vm = VM::new(chk, true);

    assert_eq!(run(&mut vm), ExecStatus::Done);
    assert_eq!(*vm.get_stack(0), num(-5.0));
}

#[test]
fn test_arithmetic() {
    let mut chk = Chunk::new();

    //5 - 5 / 2.5 + 1 * 2 = 5
    //consts[0] = 5, consts[1] = 5, consts[2] = 2.5, consts[3] = 1, consts[4] = 2
    chk.add_const(num(5.0));
    chk.add_instr(Instruction::PushConstant(0), 0);

    chk.add_const(num(5.0));
    chk.add_instr(Instruction::PushConstant(1), 0);

    chk.add_const(num(2.5));
    chk.add_instr(Instruction::PushConstant(2), 0);

    chk.add_instr(Instruction::Divide, 0);

    chk.add_instr(Instruction::Subtract, 0);

    chk.add_const(num(1.0));
    chk.add_instr(Instruction::PushConstant(3), 0);

    chk.add_const(num(2.0));
    chk.add_instr(Instruction::PushConstant(4), 0);

    chk.add_instr(Instruction::Multiply, 0);

    chk.add_instr(Instruction::Add, 0);

    chk.add_instr(Instruction::Return, 0);

    let mut vm = VM::new(chk, true);

    assert_eq!(run(&mut vm), ExecStatus::Done);
    assert_eq!(*vm.get_stack(0), num(5.0));
}

#[test]
fn test_kwexpr() {
    let mut chk = Chunk::new();
    chk.add_line(0);

    chk.add_const(num(5.0));
    chk.add_instr(Instruction::PushConstant(0), 0);

    chk.add_instr(Instruction::Trace, 0);

    chk.add_instr(Instruction::Return, 0);

    let mut vm = VM::new(chk, true);

    assert_eq!(run(&mut vm), ExecStatus::Done);
    assert_eq!(vm.trace_out.len(), 1);
    assert_eq!(vm.trace_out[0], "[0] 5");
}

#[test]
fn trace_uses_line_map_and_peeks() {
    let mut chk = Chunk::new();
    chk.add_const(num(5.0));
    chk.add_instr(Instruction::PushConstant(0), 7);
    chk.add_instr(Instruction::Trace, 7);
    chk.add_instr(Instruction::Return, 7);

    let mut vm = VM::new(chk, false);
    assert_eq!(run(&mut vm), ExecStatus::Done);
    assert_eq!(vm.trace_out, vec!["[7] 5".to_string()]);
    // peek semantics: the traced value is still on the stack
    assert_eq!(*vm.get_stack(0), num(5.0));
}

#[test]
fn double_negate_restores_number() {
    let mut chk = Chunk::new();
    chk.add_const(num(2.5));
    chk.add_instr(Instruction::PushConstant(0), 0);
    chk.add_instr(Instruction::Negate, 0);
    chk.add_instr(Instruction::Negate, 0);
    chk.add_instr(Instruction::Return, 0);

    let mut vm = VM::new(chk, false);
    assert_eq!(run(&mut vm), ExecStatus::Done);
    assert_eq!(*vm.get_stack(0), num(2.5));
}

#[test]
fn double_not_keeps_truthiness() {
    for v in [
        Value::Null,
        Value::Bool(true),
        Value::Bool(false),
        num(0.0),
        Value::String(String::new()),
        Value::Uninitialized,
    ] {
        let t = v.is_truthy();
        let once = Value::Bool(!v.is_truthy());
        let twice = Value::Bool(!once.is_truthy());
        assert_eq!(twice.is_truthy(), t);
    }
}

#[test]
fn number_text_round_trips() {
    let mut host = RealHost;
    for x in [5.0f64, 2.5, 0.1, -3.75, 1e300, 0.0, -0.0] {
        let b = x.to_bits();
        let s = host.format_num(b);
        assert_eq!(host.parse_num(&s), Some(b));
    }
}

#[test]
fn add_empty_string_is_identity() {
    let mut chk = Chunk::new();
    chk.add_const(Value::String(String::new()));
    chk.add_const(Value::String("abc".to_string()));
    chk.add_instr(Instruction::PushConstant(0), 0);
    chk.add_instr(Instruction::PushConstant(1), 0);
    chk.add_instr(Instruction::Add, 0);
    chk.add_instr(Instruction::Return, 0);
    let mut vm = VM::new(chk, false);
    assert_eq!(run(&mut vm), ExecStatus::Done);
    assert_eq!(*vm.get_stack(0), Value::String("abc".to_string()));

    let mut chk2 = Chunk::new();
    chk2.add_const(Value::String("abc".to_string()));
    chk2.add_const(Value::String(String::new()));
    chk2.add_instr(Instruction::PushConstant(0), 0);
    chk2.add_instr(Instruction::PushConstant(1), 0);
    chk2.add_instr(Instruction::Add, 0);
    chk2.add_instr(Instruction::Return, 0);
    let mut vm2 = VM::new(chk2, false);
    assert_eq!(run(&mut vm2), ExecStatus::Done);
    assert_eq!(*vm2.get_stack(0), Value::String("abc".to_string()));
}

#[test]
fn divide_by_zero_faults_but_infinite_quotient_succeeds() {
    let mut chk = Chunk::new();
    chk.add_const(num(1.0));
    chk.add_const(num(0.0));
    chk.add_instr(Instruction::PushConstant(0), 0);
    chk.add_instr(Instruction::PushConstant(1), 0);
    chk.add_instr(Instruction::Divide, 0);
    chk.add_instr(Instruction::Return, 0);
    let mut vm = VM::new(chk, false);
    assert_eq!(run(&mut vm), ExecStatus::Fault(ErrorKind::DivideByZero));

    // a huge quotient overflows to infinity but does not fault
    let mut chk2 = Chunk::new();
    chk2.add_const(num(1e308));
    chk2.add_const(num(1e-308));
    chk2.add_instr(Instruction::PushConstant(0), 0);
    chk2.add_instr(Instruction::PushConstant(1), 0);
    chk2.add_instr(Instruction::Divide, 0);
    chk2.add_instr(Instruction::Return, 0);
    let mut vm2 = VM::new(chk2, false);
    assert_eq!(run(&mut vm2), ExecStatus::Done);
    assert_eq!(*vm2.get_stack(0), num(f64::INFINITY));

    // infinity over infinity is NaN, still no fault
    let mut chk3 = Chunk::new();
    chk3.add_const(num(f64::INFINITY));
    chk3.add_const(num(f64::INFINITY));
    chk3.add_instr(Instruction::PushConstant(0), 0);
    chk3.add_instr(Instruction::PushConstant(1), 0);
    chk3.add_instr(Instruction::Divide, 0);
    chk3.add_instr(Instruction::Return, 0);
    let mut vm3 = VM::new(chk3, false);
    assert_eq!(run(&mut vm3), ExecStatus::Done);
    match vm3.get_stack(0) {
        Value::Number(b) => assert!(f64::from_bits(*b).is_nan()),
        other => panic!("expected a number, got {:?}", other),
    }
}

#[test]
fn jump_zero_is_noop() {
    let mut chk = Chunk::new();
    chk.add_instr(Instruction::PushTrue, 0);
    chk.add_instr(Instruction::Jump(0), 0);
    chk.add_instr(Instruction::Return, 0);
    let mut vm = VM::new(chk, false);
    assert_eq!(run(&mut vm), ExecStatus::Done);
    assert_eq!(*vm.get_stack(0), Value::Bool(true));
}

#[test]
fn reserve_zero_is_noop() {
    let mut chk = Chunk::new();
    chk.add_instr(Instruction::Reserve(0), 0);
    chk.add_instr(Instruction::PushNull, 0);
    chk.add_instr(Instruction::Return, 0);
    let mut vm = VM::new(chk, false);
    assert_eq!(run(&mut vm), ExecStatus::Done);
    assert_eq!(vm.stack.len(), 1);
    assert_eq!(*vm.get_stack(0), Value::Null);
}

#[test]
fn closure_with_zero_upvalues_is_callable() {
    let mut inner = Chunk::new();
    inner.add_const(num(42.0));
    inner.add_instr(Instruction::PushConstant(0), 0);
    inner.add_instr(Instruction::Return, 0);

    let mut root = Chunk::new();
    root.add_instr(Instruction::Reserve(1), 0);
    root.add_instr(Instruction::Closure(0, 1), 0);
    root.add_instr(Instruction::GetLocal(0), 0);
    root.add_instr(Instruction::FnCall(0), 0);
    root.add_instr(Instruction::Return, 0);

    let mut vm = VM::new(root, false);
    let fid = vm.add_function(plain_fn(inner));
    assert_eq!(fid, 1);
    assert_eq!(run(&mut vm), ExecStatus::Done);
    assert_eq!(*vm.get_stack(1), num(42.0));
}

#[test]
fn captured_local_survives_frame_return() {
    // outer declares x = 10 and returns a closure that reads x; calling that
    // closure after outer has returned still answers 10.
    let mut inner = Chunk::new();
    inner.add_instr(Instruction::GetUpValue(0), 0);
    inner.add_instr(Instruction::Return, 0);
    let inner_fn = Function {
        chunk: inner,
        arity: 0,
        captured: Vec::new(),
        upvals: vec![UpValueIndex { is_local: true, id: 1 }],
    };

    let mut outer = Chunk::new();
    outer.add_const(num(10.0));
    outer.add_instr(Instruction::Reserve(2), 0);
    outer.add_instr(Instruction::PushConstant(0), 0);
    outer.add_instr(Instruction::Declare(1), 0);
    outer.add_instr(Instruction::Closure(2, 2), 0);
    outer.add_instr(Instruction::GetLocal(2), 0);
    outer.add_instr(Instruction::Return, 0);
    let outer_fn = Function {
        chunk: outer,
        arity: 0,
        captured: vec![1],
        upvals: Vec::new(),
    };

    let mut root = Chunk::new();
    root.add_instr(Instruction::Reserve(1), 0);
    root.add_instr(Instruction::Closure(0, 1), 0);
    root.add_instr(Instruction::GetLocal(0), 0);
    root.add_instr(Instruction::FnCall(0), 0);
    root.add_instr(Instruction::FnCall(0), 0);
    root.add_instr(Instruction::Return, 0);

    let mut vm = VM::new(root, false);
    assert_eq!(vm.add_function(outer_fn), 1);
    assert_eq!(vm.add_function(inner_fn), 2);
    assert_eq!(run(&mut vm), ExecStatus::Done);
    assert_eq!(*vm.get_stack(1), num(10.0));
}

#[test]
fn closures_share_one_closed_cell() {
    // outer declares x = 0 and builds a reader and a writer over the same
    // slot.  The writer bumps x and hands back the reader.  Writing twice
    // and then reading answers 2, so both closures share one boxed cell.
    let mut reader = Chunk::new();
    reader.add_instr(Instruction::GetUpValue(0), 0);
    reader.add_instr(Instruction::Return, 0);
    let reader_fn = Function {
        chunk: reader,
        arity: 0,
        captured: Vec::new(),
        upvals: vec![UpValueIndex { is_local: true, id: 1 }],
    };

    let mut writer = Chunk::new();
    writer.add_const(num(1.0));
    writer.add_instr(Instruction::GetUpValue(0), 0);
    writer.add_instr(Instruction::PushConstant(0), 0);
    writer.add_instr(Instruction::Add, 0);
    writer.add_instr(Instruction::SetUpValue(0), 0);
    writer.add_instr(Instruction::Pop, 0);
    writer.add_instr(Instruction::GetUpValue(1), 0);
    writer.add_instr(Instruction::Return, 0);
    let writer_fn = Function {
        chunk: writer,
        arity: 0,
        captured: Vec::new(),
        upvals: vec![
            UpValueIndex { is_local: true, id: 1 },
            UpValueIndex { is_local: true, id: 2 },
        ],
    };

    let mut outer = Chunk::new();
    outer.add_const(num(0.0));
    outer.add_instr(Instruction::Reserve(3), 0);
    outer.add_instr(Instruction::PushConstant(0), 0);
    outer.add_instr(Instruction::Declare(1), 0);
    outer.add_instr(Instruction::Closure(2, 2), 0);
    outer.add_instr(Instruction::Closure(3, 3), 0);
    outer.add_instr(Instruction::GetLocal(3), 0);
    outer.add_instr(Instruction::Return, 0);
    let outer_fn = Function {
        chunk: outer,
        arity: 0,
        captured: vec![1, 2],
        upvals: Vec::new(),
    };

    let mut root = Chunk::new();
    root.add_instr(Instruction::Reserve(2), 0);
    root.add_instr(Instruction::Closure(0, 1), 0);
    root.add_instr(Instruction::GetLocal(0), 0);
    root.add_instr(Instruction::FnCall(0), 0);
    root.add_instr(Instruction::Declare(1), 0);
    root.add_instr(Instruction::GetLocal(1), 0);
    root.add_instr(Instruction::FnCall(0), 0);
    root.add_instr(Instruction::Pop, 0);
    root.add_instr(Instruction::GetLocal(1), 0);
    root.add_instr(Instruction::FnCall(0), 0);
    root.add_instr(Instruction::FnCall(0), 0);
    root.add_instr(Instruction::Return, 0);

    let mut vm = VM::new(root, false);
    assert_eq!(vm.add_function(outer_fn), 1);
    assert_eq!(vm.add_function(reader_fn), 2);
    assert_eq!(vm.add_function(writer_fn), 3);
    assert_eq!(run(&mut vm), ExecStatus::Done);
    assert_eq!(*vm.get_stack(2), num(2.0));
}

#[test]
fn short_circuit_skips_right_operand() {
    // a && b with a = false: the jump skips the pop and the instruction
    // that would fault, and the whole expression is false.
    let mut chk = Chunk::new();
    chk.add_instr(Instruction::PushFalse, 0);
    chk.add_instr(Instruction::JumpIfFalsy(2), 0);
    chk.add_instr(Instruction::Pop, 0);
    chk.add_instr(Instruction::Subtract, 0);
    chk.add_instr(Instruction::Return, 0);
    let mut vm = VM::new(chk, false);
    assert_eq!(run(&mut vm), ExecStatus::Done);
    assert_eq!(*vm.get_stack(0), Value::Bool(false));
}

#[test]
fn transient_closures_are_reclaimed() {
    // Build and discard many closures; after a final collection the heap
    // holds a handful of objects however many iterations ran.
    let iterations = 20000u32;
    let mut trivial = Chunk::new();
    trivial.add_instr(Instruction::Return, 0);

    let mut root = Chunk::new();
    root.add_instr(Instruction::Reserve(1), 0);
    for _ in 0..iterations {
        root.add_instr(Instruction::Closure(0, 1), 0);
    }
    root.add_instr(Instruction::Return, 0);

    let mut vm = VM::new(root, false);
    assert_eq!(vm.add_function(plain_fn(trivial)), 1);
    assert_eq!(run(&mut vm), ExecStatus::Done);
    let mut gc = GC::new();
    gc.collect_garbage(&mut vm);
    assert!(vm.heap.live_count() <= 4, "heap kept {} objects", vm.heap.live_count());
}

#[test]
fn error_kinds_have_an_input_each() {
    // type mismatch: subtraction of booleans
    let mut chk = Chunk::new();
    chk.add_instr(Instruction::PushTrue, 0);
    chk.add_instr(Instruction::PushTrue, 0);
    chk.add_instr(Instruction::Subtract, 0);
    chk.add_instr(Instruction::Return, 0);
    let mut vm = VM::new(chk, false);
    assert_eq!(run(&mut vm), ExecStatus::Fault(ErrorKind::TypeMismatch));

    // coercion: text that is not a number
    let mut chk2 = Chunk::new();
    chk2.add_const(Value::String("pelican".to_string()));
    chk2.add_instr(Instruction::PushConstant(0), 0);
    chk2.add_instr(Instruction::ToNumber, 0);
    chk2.add_instr(Instruction::Return, 0);
    let mut vm2 = VM::new(chk2, false);
    assert_eq!(run(&mut vm2), ExecStatus::Fault(ErrorKind::TypeCoercion));

    // not callable: calling null
    let mut chk3 = Chunk::new();
    chk3.add_instr(Instruction::PushNull, 0);
    chk3.add_instr(Instruction::FnCall(0), 0);
    chk3.add_instr(Instruction::Return, 0);
    let mut vm3 = VM::new(chk3, false);
    assert_eq!(run(&mut vm3), ExecStatus::Fault(ErrorKind::NotCallable));

    // internal invariant: popping an empty stack
    let mut chk4 = Chunk::new();
    chk4.add_instr(Instruction::Pop, 0);
    chk4.add_instr(Instruction::Return, 0);
    let mut vm4 = VM::new(chk4, false);
    assert_eq!(run(&mut vm4), ExecStatus::Fault(ErrorKind::InternalInvariant));
}

#[test]
fn step_budget_runs_out() {
    let mut chk = Chunk::new();
    chk.add_instr(Instruction::PushNull, 0);
    chk.add_instr(Instruction::Return, 0);
    let mut vm = VM::new(chk, false);
    let mut gc = GC::new();
    let mut host = RealHost;
    assert_eq!(vm.execute(&mut gc, &mut host, 0), ExecStatus::OutOfSteps);
    assert_eq!(vm.execute(&mut gc, &mut host, 10), ExecStatus::Done);
}

#[test]
fn string_coercion_in_addition() {
    // number + string concatenates through the number's text
    let mut chk = Chunk::new();
    chk.add_const(num(5.0));
    chk.add_const(Value::String(" birds".to_string()));
    chk.add_instr(Instruction::PushConstant(0), 0);
    chk.add_instr(Instruction::PushConstant(1), 0);
    chk.add_instr(Instruction::Add, 0);
    chk.add_instr(Instruction::Return, 0);
    let mut vm = VM::new(chk, false);
    assert_eq!(run(&mut vm), ExecStatus::Done);
    assert_eq!(*vm.get_stack(0), Value::String("5 birds".to_string()));

    // string + heap reference concatenates the reference's printable form
    let mut trivial = Chunk::new();
    trivial.add_instr(Instruction::Return, 0);
    let mut chk2 = Chunk::new();
    chk2.add_const(Value::String("v: ".to_string()));
    chk2.add_instr(Instruction::Reserve(1), 0);
    chk2.add_instr(Instruction::Closure(0, 1), 0);
    chk2.add_instr(Instruction::PushConstant(0), 0);
    chk2.add_instr(Instruction::GetLocal(0), 0);
    chk2.add_instr(Instruction::Add, 0);
    chk2.add_instr(Instruction::Return, 0);
    let mut vm2 = VM::new(chk2, false);
    assert_eq!(vm2.add_function(plain_fn(trivial)), 1);
    assert_eq!(run(&mut vm2), ExecStatus::Done);
    assert_eq!(*vm2.get_stack(1), Value::String("v: <obj 1>".to_string()));
}

#[test]
fn comparisons_on_numbers_and_strings() {
    assert_eq!(num(3.0).is_equal_to(&num(3.0)), true);
    assert_eq!(num(0.0).is_equal_to(&num(-0.0)), true);
    assert_eq!(num(f64::NAN).is_equal_to(&num(f64::NAN)), false);
    assert_eq!(num(3.0).is_equal_to(&Value::Bool(true)), false);

    assert_eq!(num(3.0).is_greater_than(&num(2.0)), Ok(true));
    assert_eq!(num(-1.0).is_greater_than(&num(-2.0)), Ok(true));
    assert_eq!(num(0.0).is_greater_than(&num(-0.0)), Ok(false));
    assert_eq!(num(f64::NAN).is_greater_than(&num(1.0)), Ok(false));

    let sa = Value::String("apple".to_string());
    let sb = Value::String("banana".to_string());
    assert_eq!(sb.is_greater_than(&sa), Ok(true));
    assert_eq!(sa.is_greater_than(&sb), Ok(false));
    assert_eq!(sa.is_greater_than(&sa), Ok(false));

    assert_eq!(
        num(1.0).is_greater_than(&sa),
        Err(ErrorKind::TypeMismatch)
    );

    // equal values are never ordered above one another
    for (a, b) in [(num(2.0), num(2.0)), (sa.clone(), sa.clone())] {
        if a.is_equal_to(&b) {
            assert_eq!(a.is_greater_than(&b), Ok(false));
            assert_eq!(b.is_greater_than(&a), Ok(false));
        }
    }
}

#[test]
fn decimal_rendering() {
    assert_eq!(kwvm::text::to_decimal(0), "0");
    assert_eq!(kwvm::text::to_decimal(907), "907");
    assert_eq!(kwvm::text::to_decimal(u64::MAX), "18446744073709551615");
    assert!(ErrorKind::DivideByZero.describe().len() > 0);
}
