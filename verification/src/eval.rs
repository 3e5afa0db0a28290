//! The evaluator: reduces a parse tree to a 64-bit integer with checked
//! arithmetic.  Division truncates toward zero, as machine division does;
//! division by zero and any intermediate value outside the 64-bit range
//! yield no result rather than a wrapped one.

use vstd::arithmetic::div_mod::{lemma_div_decreases, lemma_div_nonincreasing};
use vstd::prelude::*;

use crate::parser::Expr;
use crate::token::TokenType;

verus! {

/// The absolute value of an integer.
pub open spec fn abs_int(a: int) -> int {
    if a < 0 {
        -a
    } else {
        a
    }
}

/// Division truncating toward zero: the magnitudes are divided and the
/// sign is reapplied.
pub open spec fn div_trunc(a: int, b: int) -> int {
    if (a < 0) == (b < 0) {
        abs_int(a) / abs_int(b)
    } else {
        -(abs_int(a) / abs_int(b))
    }
}

/// Whether a value fits a signed 64-bit integer.
pub open spec fn fits_i64(v: int) -> bool {
    i64::MIN <= v <= i64::MAX
}

/// The value of a tree.  None where a division by zero occurs, where any
/// node's value leaves the 64-bit range, or where a node carries an
/// operator the arithmetic grammar gives no meaning.
pub open spec fn eval_spec(e: Expr) -> Option<int>
    decreases e,
{
    match e {
        Expr::Number(n) => Some(n as int),
        Expr::Grouping(inner) => eval_spec(*inner),
        Expr::Unary { op, rhs } => if op == TokenType::Minus {
            match eval_spec(*rhs) {
                Some(v) => if fits_i64(-v) {
                    Some(-v)
                } else {
                    None
                },
                None => None,
            }
        } else {
            None
        },
        Expr::Binary { lhs, op, rhs } => match (eval_spec(*lhs), eval_spec(*rhs)) {
            (Some(a), Some(b)) => if op == TokenType::Plus {
                if fits_i64(a + b) {
                    Some(a + b)
                } else {
                    None
                }
            } else if op == TokenType::Minus {
                if fits_i64(a - b) {
                    Some(a - b)
                } else {
                    None
                }
            } else if op == TokenType::Multiply {
                if fits_i64(a * b) {
                    Some(a * b)
                } else {
                    None
                }
            } else if op == TokenType::Divide {
                if b == 0 {
                    None
                } else if fits_i64(div_trunc(a, b)) {
                    Some(div_trunc(a, b))
                } else {
                    None
                }
            } else {
                None
            },
            _ => None,
        },
    }
}

fn add_checked(a: i64, b: i64) -> (r: Option<i64>)
    ensures
        (if fits_i64(a + b) {
            r matches Some(x) && x == a + b
        } else {
            r is None
        }),
{
    if b > 0 && a > i64::MAX - b {
        None
    } else if b < 0 && a < i64::MIN - b {
        None
    } else {
        Some(a + b)
    }
}

fn sub_checked(a: i64, b: i64) -> (r: Option<i64>)
    ensures
        (if fits_i64(a - b) {
            r matches Some(x) && x == a - b
        } else {
            r is None
        }),
{
    if b < 0 && a > i64::MAX + b {
        None
    } else if b > 0 && a < i64::MIN + b {
        None
    } else {
        Some(a - b)
    }
}

fn mul_checked(a: i64, b: i64) -> (r: Option<i64>)
    ensures
        (if fits_i64(a * b) {
            r matches Some(x) && x == a * b
        } else {
            r is None
        }),
{
    proof {
        assert(i128::MIN <= (a as int) * (b as int) <= i128::MAX) by (nonlinear_arith)
            requires
                i64::MIN <= a <= i64::MAX,
                i64::MIN <= b <= i64::MAX,
        ;
    }
    let p: i128 = (a as i128) * (b as i128);
    if p > (i64::MAX as i128) || p < (i64::MIN as i128) {
        None
    } else {
        Some(p as i64)
    }
}

/// The magnitude of a 64-bit integer, as an unsigned value.
fn magnitude(a: i64) -> (r: u64)
    ensures
        r as int == abs_int(a as int),
{
    if a == i64::MIN {
        9223372036854775808u64
    } else if a < 0 {
        (-a) as u64
    } else {
        a as u64
    }
}

fn div_checked(a: i64, b: i64) -> (r: Option<i64>)
    ensures
        (if b == 0 {
            r is None
        } else if fits_i64(div_trunc(a as int, b as int)) {
            r matches Some(x) && x == div_trunc(a as int, b as int)
        } else {
            r is None
        }),
{
    if b == 0 {
        return None;
    }
    if a == i64::MIN && b == -1 {
        proof {
            assert(abs_int(a as int) == 9223372036854775808);
            assert(abs_int(b as int) == 1);
            assert(div_trunc(a as int, b as int) == 9223372036854775808int);
        }
        return None;
    }
    let ua = magnitude(a);
    let ub = magnitude(b);
    let q: u64 = ua / ub;
    proof {
        assert(ub >= 1);
        lemma_div_nonincreasing(ua as int, ub as int);
        assert(q as int == abs_int(a as int) / abs_int(b as int));
        if ub == 1 {
            vstd::arithmetic::div_mod::lemma_div_basics(ua as int);
            assert(q == ua);
        } else {
            if ua > 0 {
                lemma_div_decreases(ua as int, ub as int);
                assert(q < ua);
            }
        }
    }
    let neg = (a < 0) != (b < 0);
    if !neg {
        proof {
            // same sign: the magnitudes cannot both be at the extreme,
            // so the quotient stays below the top of the range
            if ub == 1 {
                assert(b == 1 || b == -1);
                if b == 1 {
                    assert(a >= 0);
                    assert(q <= i64::MAX as u64);
                } else {
                    assert(a <= 0 && a != i64::MIN);
                    assert(q <= i64::MAX as u64);
                }
            } else {
                assert(q <= i64::MAX as u64);
            }
            assert(div_trunc(a as int, b as int) == q as int);
        }
        Some(q as i64)
    } else {
        proof {
            assert(div_trunc(a as int, b as int) == -(q as int));
            assert(q <= 9223372036854775808u64);
        }
        if q == 9223372036854775808u64 {
            Some(i64::MIN)
        } else {
            Some(-(q as i64))
        }
    }
}

impl Expr {
    /// The value of this tree under checked 64-bit arithmetic.
    pub fn eval(&self) -> (r: Option<i64>)
        ensures
            (match eval_spec(*self) {
                Some(v) => r matches Some(x) && x == v,
                None => r is None,
            }),
        decreases *self,
    {
        match self {
            Expr::Number(n) => Some(*n),
            Expr::Grouping(inner) => (&**inner).eval(),
            Expr::Unary { op, rhs } => {
                let is_minus = matches!(op, TokenType::Minus);
                if !is_minus {
                    return None;
                }
                match (&**rhs).eval() {
                    Some(v) => if v == i64::MIN {
                        None
                    } else {
                        Some(-v)
                    },
                    None => None,
                }
            },
            Expr::Binary { lhs, op, rhs } => {
                let a = match (&**lhs).eval() {
                    Some(a) => a,
                    None => {
                        return None;
                    },
                };
                let b = match (&**rhs).eval() {
                    Some(b) => b,
                    None => {
                        return None;
                    },
                };
                match op {
                    TokenType::Plus => add_checked(a, b),
                    TokenType::Minus => sub_checked(a, b),
                    TokenType::Multiply => mul_checked(a, b),
                    TokenType::Divide => div_checked(a, b),
                    _ => None,
                }
            },
        }
    }
}

} // verus!
