use vstd::prelude::*;

use crate::encoding::{be_bytes, lemma_be_bytes_len, pow256};

verus! {

/// 2^128, the weight of the high half.
pub open spec fn half() -> nat {
    u128::MAX as nat + 1
}

/// 2^256, one past the largest value.
pub open spec fn u256_bound() -> nat {
    half() * half()
}

/// An unsigned 256-bit integer held as two 128-bit halves.
#[derive(Debug, Clone, Copy, PartialEq, Eq, Structural)]
pub struct U256 {
    pub hi: u128,
    pub lo: u128,
}

proof fn lemma_div_256(hi: u128, lo: u128)
    ensures
        (hi * half() + lo) / 256 == (hi / 256) * half() + (hi % 256) * 0x1_0000_0000_0000_0000_0000_0000_0000_00
            + lo / 256,
        (hi * half() + lo) % 256 == lo % 256,
{
    let q: int = (hi / 256) * half() + (hi % 256) * 0x1_0000_0000_0000_0000_0000_0000_0000_00 + lo / 256;
    let r: int = (lo % 256) as int;
    assert(hi == 256 * (hi / 256) + hi % 256);
    assert(lo == 256 * (lo / 256) + lo % 256);
    assert(hi * half() + lo == 256 * q + r) by (nonlinear_arith)
        requires
            hi == 256 * (hi / 256) + hi % 256,
            lo == 256 * (lo / 256) + lo % 256,
            q == (hi / 256) * half() + (hi % 256) * 0x1_0000_0000_0000_0000_0000_0000_0000_00 + lo / 256,
            r == lo % 256,
            half() == 256 * 0x1_0000_0000_0000_0000_0000_0000_0000_00,
    ;
    vstd::arithmetic::div_mod::lemma_fundamental_div_mod_converse(
        hi * half() + lo,
        256,
        q,
        r,
    );
}

impl U256 {
    /// The number the two halves stand for.
    pub open spec fn value(&self) -> nat {
        (self.hi * half() + self.lo) as nat
    }

    /// Every value lies below 2^256.
    pub proof fn lemma_value_bound(&self)
        ensures
            self.value() < u256_bound(),
    {
        assert(self.value() < half() * half()) by (nonlinear_arith)
            requires
                self.value() == self.hi * half() + self.lo,
                self.hi < half(),
                self.lo < half(),
        ;
    }

    pub fn zero() -> (r: U256)
        ensures
            r.value() == 0,
    {
        U256 { hi: 0, lo: 0 }
    }

    pub fn from_u128(x: u128) -> (r: U256)
        ensures
            r.value() == x,
    {
        U256 { hi: 0, lo: x }
    }

    /// The sum, or `None` where it reaches 2^256.
    pub fn checked_add(&self, o: &U256) -> (r: Option<U256>)
        ensures
            r is Some <==> self.value() + o.value() < u256_bound(),
            r is Some ==> r->Some_0.value() == self.value() + o.value(),
    {
        let (lo, carry) = if self.lo <= u128::MAX - o.lo {
            (self.lo + o.lo, 0u128)
        } else {
            (self.lo - (u128::MAX - o.lo) - 1, 1u128)
        };
        assert(self.lo + o.lo == lo + carry * half());
        assert(self.value() + o.value() == (self.hi + o.hi + carry) * half() + lo) by (nonlinear_arith)
            requires
                self.lo + o.lo == lo + carry * half(),
                self.value() == self.hi * half() + self.lo,
                o.value() == o.hi * half() + o.lo,
        ;
        assert(u256_bound() == (u128::MAX + 1) * half());
        assert((self.hi + o.hi + carry) * half() + lo < u256_bound() <==> self.hi + o.hi + carry
            <= u128::MAX) by (nonlinear_arith)
            requires
                u256_bound() == (u128::MAX + 1) * half(),
                0 <= lo < half(),
                half() > 0,
        ;
        if self.hi > u128::MAX - o.hi || self.hi + o.hi > u128::MAX - carry {
            None
        } else {
            Some(U256 { hi: self.hi + o.hi + carry, lo })
        }
    }

    /// The difference, or `None` where `o` is the larger.
    pub fn checked_sub(&self, o: &U256) -> (r: Option<U256>)
        ensures
            r is Some <==> o.value() <= self.value(),
            r is Some ==> r->Some_0.value() == self.value() - o.value(),
    {
        let (lo, borrow) = if self.lo >= o.lo {
            (self.lo - o.lo, 0u128)
        } else {
            (u128::MAX - (o.lo - self.lo) + 1, 1u128)
        };
        assert(self.lo - o.lo == lo - borrow * half());
        assert(self.value() - o.value() == (self.hi - o.hi - borrow) * half() + lo) by (nonlinear_arith)
            requires
                self.lo - o.lo == lo - borrow * half(),
                self.value() == self.hi * half() + self.lo,
                o.value() == o.hi * half() + o.lo,
        ;
        assert((self.hi - o.hi - borrow) * half() + lo >= 0 <==> self.hi - o.hi - borrow >= 0) by (nonlinear_arith)
            requires
                0 <= lo < half(),
                half() > 0,
        ;
        if self.hi < o.hi || self.hi - o.hi < borrow {
            None
        } else {
            Some(U256 { hi: self.hi - o.hi - borrow, lo })
        }
    }

    /// The minimal big-endian bytes of the number; none for zero.
    pub fn to_be_bytes(&self) -> (r: Vec<u8>)
        ensures
            r@ == be_bytes(self.value()),
            r@.len() <= 32,
    {
        proof {
            reveal_with_fuel(pow256, 33);
            assert(pow256(16) == half());
            assert(pow256(32) == pow256(16) * pow256(16));
            self.lemma_value_bound();
            lemma_be_bytes_len(self.value(), 32);
        }
        let mut out: Vec<u8> = Vec::new();
        let mut y: U256 = *self;
        while y.hi > 0 || y.lo > 0
            invariant
                be_bytes(self.value()) == be_bytes(y.value()) + out@,
                out@.len() + be_bytes(y.value()).len() <= 32,
            decreases y.value(),
        {
            proof {
                lemma_div_256(y.hi, y.lo);
            }
            let b = (y.lo % 256) as u8;
            let next = U256 { hi: y.hi / 256, lo: y.lo / 256 + (y.hi % 256) * 0x1_0000_0000_0000_0000_0000_0000_0000_00 };
            proof {
                assert(be_bytes(y.value()) == be_bytes(next.value()).push(b));
            }
            out.insert(0, b);
            y = next;
            assert(be_bytes(self.value()) =~= be_bytes(y.value()) + out@);
        }
        assert(be_bytes(0) =~= Seq::<u8>::empty());
        assert(out@ =~= be_bytes(self.value()));
        out
    }
}

} // verus!
