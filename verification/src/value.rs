//! Runtime values: the tagged union the evaluation stack holds, with
//! truthiness, equality and ordering.

use crate::error::ErrorKind;
use crate::num;
use vstd::prelude::*;
use vstd::string::StringSliceAdditionalSpecFns;
use vstd::utf8::encode_utf8;

verus! {

/// A runtime value.  Numbers carry the bit pattern of an IEEE-754 double
/// (see [`crate::num`]).  `Heap` refers to an object in the managed heap.
/// `Uninitialized` is the placeholder written by `Reserve` and is never
/// legally observed by program code.
#[derive(Debug, PartialEq)]
pub enum Value {
    Null,
    Bool(bool),
    Number(u64),
    String(String),
    Heap(u32),
    Uninitialized,
}

impl Clone for Value {
    fn clone(&self) -> (r: Self)
        ensures
            r == *self,
    {
        match self {
            Value::Null => Value::Null,
            Value::Bool(x) => Value::Bool(*x),
            Value::Number(x) => Value::Number(*x),
            Value::String(s) => Value::String(s.clone()),
            Value::Heap(x) => Value::Heap(*x),
            Value::Uninitialized => Value::Uninitialized,
        }
    }
}

/// Truthiness: `false`, `Null` and `Uninitialized` are falsy, every other
/// value is truthy, zero and the empty string included.
pub open spec fn truthy(v: Value) -> bool {
    match v {
        Value::Bool(b) => b,
        Value::Null => false,
        Value::Uninitialized => false,
        _ => true,
    }
}

/// Language equality: structural within a tag, false across tags, numeric
/// equality (NaN unequal to everything, the two zeroes equal) for numbers,
/// content equality for strings.
pub open spec fn value_eq(a: Value, b: Value) -> bool {
    match (a, b) {
        (Value::Null, Value::Null) => true,
        (Value::Bool(x), Value::Bool(y)) => x == y,
        (Value::Number(x), Value::Number(y)) => num::num_eq(x, y),
        (Value::String(x), Value::String(y)) => x@ == y@,
        (Value::Heap(x), Value::Heap(y)) => x == y,
        (Value::Uninitialized, Value::Uninitialized) => true,
        _ => false,
    }
}

/// Strict lexicographic order on byte sequences.
pub open spec fn lex_gt(a: Seq<u8>, b: Seq<u8>) -> bool
    decreases a.len(),
{
    if a.len() == 0 {
        false
    } else if b.len() == 0 {
        true
    } else if a[0] != b[0] {
        a[0] > b[0]
    } else {
        lex_gt(a.skip(1), b.skip(1))
    }
}

/// Language order: numeric order for numbers, lexicographic order of the
/// text encoding for strings, and false for every pair on which ordering is
/// a type mismatch.
pub open spec fn value_gt(a: Value, b: Value) -> bool {
    match (a, b) {
        (Value::Number(x), Value::Number(y)) => num::num_gt(x, y),
        (Value::String(x), Value::String(y)) => lex_gt(encode_utf8(x@), encode_utf8(y@)),
        _ => false,
    }
}

/// Two values can be ordered exactly when both are numbers or both are
/// strings.
pub open spec fn comparable(a: Value, b: Value) -> bool {
    match (a, b) {
        (Value::Number(_), Value::Number(_)) => true,
        (Value::String(_), Value::String(_)) => true,
        _ => false,
    }
}

impl Value {
    /// Truthiness of this value.
    pub fn is_truthy(&self) -> (r: bool)
        ensures
            r == truthy(*self),
    {
        match self {
            Value::Bool(b) => *b,
            Value::Null => false,
            Value::Uninitialized => false,
            _ => true,
        }
    }

    /// Language equality with another value.
    pub fn is_equal_to(&self, other: &Value) -> (r: bool)
        ensures
            r == value_eq(*self, *other),
    {
        match (self, other) {
            (Value::Null, Value::Null) => true,
            (Value::Bool(x), Value::Bool(y)) => *x == *y,
            (Value::Number(x), Value::Number(y)) => num::eq_bits(*x, *y),
            (Value::String(x), Value::String(y)) => x.eq(y),
            (Value::Heap(x), Value::Heap(y)) => *x == *y,
            (Value::Uninitialized, Value::Uninitialized) => true,
            _ => false,
        }
    }

    /// Language order: `Ok` for two numbers or two strings, a type mismatch
    /// otherwise.
    pub fn is_greater_than(&self, other: &Value) -> (r: Result<bool, ErrorKind>)
        ensures
            comparable(*self, *other) ==> r == Ok::<bool, ErrorKind>(value_gt(*self, *other)),
            !comparable(*self, *other) ==> r == Err::<bool, ErrorKind>(ErrorKind::TypeMismatch),
    {
        match (self, other) {
            (Value::Number(x), Value::Number(y)) => Ok(num::gt_bits(*x, *y)),
            (Value::String(x), Value::String(y)) => Ok(str_gt(x.as_str(), y.as_str())),
            _ => Err(ErrorKind::TypeMismatch),
        }
    }
}

/// Strict lexicographic comparison of two pieces of text by their bytes.
pub fn str_gt(a: &str, b: &str) -> (r: bool)
    ensures
        r == lex_gt(a.spec_bytes(), b.spec_bytes()),
{
    let ab = a.as_bytes();
    let bb = b.as_bytes();
    let ghost ga = a.spec_bytes();
    let ghost gb = b.spec_bytes();
    let mut i: usize = 0;
    proof {
        assert(ga.skip(0) =~= ga);
        assert(gb.skip(0) =~= gb);
    }
    loop
        invariant
            ga == a.spec_bytes(),
            gb == b.spec_bytes(),
            ab@ == ga,
            bb@ == gb,
            i <= ga.len(),
            i <= gb.len(),
            lex_gt(ga, gb) == lex_gt(ga.skip(i as int), gb.skip(i as int)),
        decreases ga.len() - i,
    {
        let ghost sa = ga.skip(i as int);
        let ghost sb = gb.skip(i as int);
        if i >= ab.len() {
            proof {
                assert(sa.len() == 0);
                assert(!lex_gt(sa, sb));
            }
            return false;
        }
        if i >= bb.len() {
            proof {
                assert(sb.len() == 0);
                assert(sa.len() > 0);
                assert(lex_gt(sa, sb));
            }
            return true;
        }
        let ca = ab[i];
        let cb = bb[i];
        proof {
            assert(sa[0] == ga[i as int]);
            assert(sb[0] == gb[i as int]);
        }
        if ca != cb {
            proof {
                assert(lex_gt(sa, sb) == (sa[0] > sb[0]));
            }
            return ca > cb;
        }
        proof {
            assert(lex_gt(sa, sb) == lex_gt(sa.skip(1), sb.skip(1)));
        }
        proof {
            assert(sa.skip(1) =~= ga.skip(i as int + 1));
            assert(sb.skip(1) =~= gb.skip(i as int + 1));
        }
        i = i + 1;
    }
}

/// Strict lexicographic order never holds of a sequence and itself.
pub proof fn lemma_lex_gt_irreflexive(a: Seq<u8>)
    ensures
        !lex_gt(a, a),
    decreases a.len(),
{
    if a.len() > 0 {
        lemma_lex_gt_irreflexive(a.skip(1));
    }
}

/// Values that are equal are not ordered above one another, in either
/// direction.  For numbers this excludes NaN, which is equal to nothing.
pub proof fn lemma_eq_excludes_gt(a: Value, b: Value)
    requires
        value_eq(a, b),
    ensures
        !value_gt(a, b),
        !value_gt(b, a),
{
    match (a, b) {
        (Value::Number(x), Value::Number(y)) => {
            num::lemma_num_eq_excludes_gt(x, y);
        },
        (Value::String(x), Value::String(y)) => {
            lemma_lex_gt_irreflexive(encode_utf8(x@));
        },
        _ => {},
    }
}

/// The law behind `Add` of a string and the empty string: empty text is an
/// identity of concatenation on either side, so the other string comes back
/// unchanged.
pub proof fn lemma_add_empty_string(s: Seq<char>)
    ensures
        Seq::<char>::empty() + s == s,
        s + Seq::<char>::empty() == s,
{
    assert(Seq::<char>::empty() + s =~= s);
    assert(s + Seq::<char>::empty() =~= s);
}

/// Applying `Not` twice yields a value of the original truthiness.  `Not`
/// pushes `Bool(!truthy(v))`, so two applications restore truthiness.
pub proof fn lemma_double_not_truthiness(v: Value)
    ensures
        truthy(Value::Bool(!truthy(Value::Bool(!truthy(v))))) == truthy(v),
{
}

} // verus!
