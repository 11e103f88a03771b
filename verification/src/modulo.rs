//! Modulo that handles negative numbers: the remainder is never negative,
//! whatever the sign of the dividend.

use vstd::arithmetic::div_mod::{lemma_fundamental_div_mod, lemma_fundamental_div_mod_converse};
use vstd::prelude::*;

verus! {

///
/// Modulo that handles negative numbers: for a positive `n` the result lies
/// in `[0, n)` and differs from `self` by a multiple of `n`.
///
/// eg: `(a + b).modulo(c)`
pub trait ModuloSignedExt: Sized {
    spec fn as_int(&self) -> int;

    fn modulo(&self, n: Self) -> (r: Self)
        requires
            n.as_int() > 0,
        ensures
            r.as_int() == self.as_int() % n.as_int(),
    ;
}

/// For a negative `a`, the remainder of `a` by `n` is `n - 1` less the
/// remainder of `-a - 1`.
pub proof fn lemma_mod_of_negative(a: int, n: int)
    requires
        a < 0,
        n > 0,
    ensures
        a % n == n - 1 - ((-a - 1) % n),
{
    let b = -a - 1;
    lemma_fundamental_div_mod(b, n);
    let q = -(b / n) - 1;
    let r = n - 1 - (b % n);
    assert(a == q * n + r) by (nonlinear_arith)
        requires
            b == n * (b / n) + (b % n),
            a == -b - 1,
            q == -(b / n) - 1,
            r == n - 1 - (b % n),
    ;
    lemma_fundamental_div_mod_converse(a, n, q, r);
}

impl ModuloSignedExt for i8 {
    open spec fn as_int(&self) -> int {
        *self as int
    }

    #[inline]
    fn modulo(&self, n: Self) -> (r: Self) {
        if *self >= 0 {
            *self % n
        } else {
            proof {
                lemma_mod_of_negative(*self as int, n as int);
            }
            n - 1 - (-(*self + 1)) % n
        }
    }
}

impl ModuloSignedExt for i16 {
    open spec fn as_int(&self) -> int {
        *self as int
    }

    #[inline]
    fn modulo(&self, n: Self) -> (r: Self) {
        if *self >= 0 {
            *self % n
        } else {
            proof {
                lemma_mod_of_negative(*self as int, n as int);
            }
            n - 1 - (-(*self + 1)) % n
        }
    }
}

impl ModuloSignedExt for i32 {
    open spec fn as_int(&self) -> int {
        *self as int
    }

    #[inline]
    fn modulo(&self, n: Self) -> (r: Self) {
        if *self >= 0 {
            *self % n
        } else {
            proof {
                lemma_mod_of_negative(*self as int, n as int);
            }
            n - 1 - (-(*self + 1)) % n
        }
    }
}

impl ModuloSignedExt for i64 {
    open spec fn as_int(&self) -> int {
        *self as int
    }

    #[inline]
    fn modulo(&self, n: Self) -> (r: Self) {
        if *self >= 0 {
            *self % n
        } else {
            proof {
                lemma_mod_of_negative(*self as int, n as int);
            }
            n - 1 - (-(*self + 1)) % n
        }
    }
}

impl ModuloSignedExt for usize {
    open spec fn as_int(&self) -> int {
        *self as int
    }

    #[inline]
    fn modulo(&self, n: Self) -> (r: Self) {
        *self % n
    }
}

} // verus!
