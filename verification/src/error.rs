use vstd::prelude::*;

verus! {

/// The kinds of fault that abort an execution.
#[derive(Debug, Clone, Copy, PartialEq, Eq, Structural)]
pub enum ErrorKind {
    /// An operator was applied to operands of the wrong shape.
    TypeMismatch,
    /// A conversion to a number or to text failed.
    TypeCoercion,
    /// The divisor of a division was exactly zero.
    DivideByZero,
    /// The target of a call was not a closure.
    NotCallable,
    /// Stack underflow, a missing constant, or a corrupted frame: a bug in
    /// the compiler or in the virtual machine, never in the program.
    InternalInvariant,
}

impl ErrorKind {
    /// A short, stable description of the fault, distinct per kind.
    pub fn describe(&self) -> (r: &'static str)
        ensures
            *self == ErrorKind::TypeMismatch ==> r@ == "type mismatch"@,
            *self == ErrorKind::TypeCoercion ==> r@ == "type coercion failed"@,
            *self == ErrorKind::DivideByZero ==> r@ == "division by zero"@,
            *self == ErrorKind::NotCallable ==> r@ == "value is not callable"@,
            *self == ErrorKind::InternalInvariant ==> r@ == "internal invariant violated"@,
            r@.len() > 0,
    {
        proof {
            reveal_strlit("type mismatch");
            reveal_strlit("type coercion failed");
            reveal_strlit("division by zero");
            reveal_strlit("value is not callable");
            reveal_strlit("internal invariant violated");
        }
        match self {
            ErrorKind::TypeMismatch => "type mismatch",
            ErrorKind::TypeCoercion => "type coercion failed",
            ErrorKind::DivideByZero => "division by zero",
            ErrorKind::NotCallable => "value is not callable",
            ErrorKind::InternalInvariant => "internal invariant violated",
        }
    }
}

} // verus!
