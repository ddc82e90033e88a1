//! Unsigned 256-bit integers for balances, nonces and amounts.
use vstd::prelude::*;

verus! {

pub open spec fn word() -> int {
    0x1_0000_0000_0000_0000
}

/// The bound of a 256-bit value.
pub open spec fn u256_bound() -> int {
    word() * word() * word() * word()
}

/// An unsigned 256-bit integer as four 64-bit words, least significant first.
#[derive(Clone, Copy, Debug, PartialEq, Eq, Structural)]
pub struct U256 {
    pub w0: u64,
    pub w1: u64,
    pub w2: u64,
    pub w3: u64,
}

impl View for U256 {
    type V = nat;

    open spec fn view(&self) -> nat {
        (self.w0 + self.w1 * word() + self.w2 * word() * word() + self.w3 * word() * word() * word()) as nat
    }
}

proof fn lemma_bound(a: U256)
    ensures
        a@ < u256_bound(),
{
    assert(a@ < u256_bound()) by (nonlinear_arith)
        requires
            a.w0 < word(),
            a.w1 < word(),
            a.w2 < word(),
            a.w3 < word(),
            a@ == a.w0 + a.w1 * word() + a.w2 * word() * word() + a.w3 * word() * word() * word(),
            word() == 0x1_0000_0000_0000_0000,
            u256_bound() == word() * word() * word() * word(),
    ;
}

/// The four words of a value are the base-2^64 digits of it.
proof fn lemma_words_unique(a: U256, b: U256)
    requires
        a@ == b@,
    ensures
        a == b,
{
    let w = word();
    assert(a.w0 == b.w0 && a.w1 == b.w1 && a.w2 == b.w2 && a.w3 == b.w3) by (nonlinear_arith)
        requires
            w == 0x1_0000_0000_0000_0000,
            0 <= a.w0 < w,
            0 <= a.w1 < w,
            0 <= a.w2 < w,
            0 <= a.w3 < w,
            0 <= b.w0 < w,
            0 <= b.w1 < w,
            0 <= b.w2 < w,
            0 <= b.w3 < w,
            a.w0 + a.w1 * w + a.w2 * w * w + a.w3 * w * w * w == b.w0 + b.w1 * w + b.w2 * w * w
                + b.w3 * w * w * w,
    ;
}

/// The 256-bit value of a natural number below the bound.
pub open spec fn u256_of(n: nat) -> U256 {
    let w = word();
    let n = n as int;
    U256 {
        w0: (n % w) as u64,
        w1: ((n / w) % w) as u64,
        w2: ((n / w / w) % w) as u64,
        w3: (n / w / w / w) as u64,
    }
}

/// Every value is the one its view names.
pub proof fn lemma_u256_of_view(a: U256)
    ensures
        u256_of(a@) == a,
{
    let w = word();
    let x3 = a.w3 as int;
    let x2 = a.w2 + w * x3;
    let x1 = a.w1 + w * x2;
    let x0 = a.w0 + w * x1;
    assert(x0 == a@) by (nonlinear_arith)
        requires
            x0 == a.w0 + w * (a.w1 + w * (a.w2 + w * a.w3)),
            a@ == a.w0 + a.w1 * w + a.w2 * w * w + a.w3 * w * w * w,
    ;
    vstd::arithmetic::div_mod::lemma_fundamental_div_mod_converse(x0, w, x1, a.w0 as int);
    vstd::arithmetic::div_mod::lemma_fundamental_div_mod_converse(x1, w, x2, a.w1 as int);
    vstd::arithmetic::div_mod::lemma_fundamental_div_mod_converse(x2, w, x3, a.w2 as int);
    assert(x1 * w + a.w0 == x0) by (nonlinear_arith)
        requires
            x0 == a.w0 + w * x1,
    ;
    assert(x2 * w + a.w1 == x1) by (nonlinear_arith)
        requires
            x1 == a.w1 + w * x2,
    ;
    assert(x3 * w + a.w2 == x2) by (nonlinear_arith)
        requires
            x2 == a.w2 + w * x3,
    ;
}

impl U256 {
    pub fn zero() -> (r: U256)
        ensures
            r@ == 0,
    {
        U256 { w0: 0, w1: 0, w2: 0, w3: 0 }
    }

    pub fn from_u64(v: u64) -> (r: U256)
        ensures
            r@ == v,
    {
        U256 { w0: v, w1: 0, w2: 0, w3: 0 }
    }

    pub fn is_zero(&self) -> (r: bool)
        ensures
            r == (self@ == 0),
    {
        proof {
            if self@ == 0 {
                lemma_words_unique(*self, U256 { w0: 0, w1: 0, w2: 0, w3: 0 });
            }
        }
        self.w0 == 0 && self.w1 == 0 && self.w2 == 0 && self.w3 == 0
    }

    pub fn eq_value(&self, o: &U256) -> (r: bool)
        ensures
            r == (self@ == o@),
    {
        proof {
            if self@ == o@ {
                lemma_words_unique(*self, *o);
            }
        }
        self.w0 == o.w0 && self.w1 == o.w1 && self.w2 == o.w2 && self.w3 == o.w3
    }

    /// Whether `self < o`.
    pub fn lt(&self, o: &U256) -> (r: bool)
        ensures
            r == (self@ < o@),
    {
        proof {
            lemma_cmp(*self, *o);
        }
        if self.w3 != o.w3 {
            self.w3 < o.w3
        } else if self.w2 != o.w2 {
            self.w2 < o.w2
        } else if self.w1 != o.w1 {
            self.w1 < o.w1
        } else {
            self.w0 < o.w0
        }
    }

    pub fn checked_add(&self, o: &U256) -> (r: Option<U256>)
        ensures
            match r {
                Some(s) => s@ == self@ + o@,
                None => self@ + o@ >= u256_bound(),
            },
    {
        let b: u128 = 0x1_0000_0000_0000_0000;
        let t0 = self.w0 as u128 + o.w0 as u128;
        let c0 = t0 / b;
        let t1 = self.w1 as u128 + o.w1 as u128 + c0;
        let c1 = t1 / b;
        let t2 = self.w2 as u128 + o.w2 as u128 + c1;
        let c2 = t2 / b;
        let t3 = self.w3 as u128 + o.w3 as u128 + c2;
        let c3 = t3 / b;
        let s = U256 { w0: (t0 % b) as u64, w1: (t1 % b) as u64, w2: (t2 % b) as u64, w3: (t3 % b) as u64 };
        proof {
            let w = word();
            assert(s@ + c3 * (w * w * w * w) == self@ + o@) by (nonlinear_arith)
                requires
                    w == 0x1_0000_0000_0000_0000,
                    t0 == self.w0 + o.w0,
                    t0 == (t0 as int % w) + c0 * w,
                    t1 == self.w1 + o.w1 + c0,
                    t1 == (t1 as int % w) + c1 * w,
                    t2 == self.w2 + o.w2 + c1,
                    t2 == (t2 as int % w) + c2 * w,
                    t3 == self.w3 + o.w3 + c2,
                    t3 == (t3 as int % w) + c3 * w,
                    s.w0 == t0 as int % w,
                    s.w1 == t1 as int % w,
                    s.w2 == t2 as int % w,
                    s.w3 == t3 as int % w,
                    s@ == s.w0 + s.w1 * w + s.w2 * w * w + s.w3 * w * w * w,
                    self@ == self.w0 + self.w1 * w + self.w2 * w * w + self.w3 * w * w * w,
                    o@ == o.w0 + o.w1 * w + o.w2 * w * w + o.w3 * w * w * w,
            ;
            lemma_bound(s);
        }
        if c3 != 0 {
            None
        } else {
            Some(s)
        }
    }

    pub fn checked_sub(&self, o: &U256) -> (r: Option<U256>)
        ensures
            match r {
                Some(s) => s@ == self@ - o@,
                None => self@ < o@,
            },
    {
        if self.lt(o) {
            return None;
        }
        let b: u128 = 0x1_0000_0000_0000_0000;
        let t0 = self.w0 as u128 + b - o.w0 as u128;
        let k0 = 1 - t0 / b;
        let t1 = self.w1 as u128 + b - o.w1 as u128 - k0;
        let k1 = 1 - t1 / b;
        let t2 = self.w2 as u128 + b - o.w2 as u128 - k1;
        let k2 = 1 - t2 / b;
        let t3 = self.w3 as u128 + b - o.w3 as u128 - k2;
        let k3 = 1 - t3 / b;
        let s = U256 { w0: (t0 % b) as u64, w1: (t1 % b) as u64, w2: (t2 % b) as u64, w3: (t3 % b) as u64 };
        proof {
            let w = word();
            assert(s@ - k3 * (w * w * w * w) == self@ - o@) by (nonlinear_arith)
                requires
                    w == 0x1_0000_0000_0000_0000,
                    t0 == self.w0 + w - o.w0,
                    t0 == (t0 as int % w) + (1 - k0) * w,
                    t1 == self.w1 + w - o.w1 - k0,
                    t1 == (t1 as int % w) + (1 - k1) * w,
                    t2 == self.w2 + w - o.w2 - k1,
                    t2 == (t2 as int % w) + (1 - k2) * w,
                    t3 == self.w3 + w - o.w3 - k2,
                    t3 == (t3 as int % w) + (1 - k3) * w,
                    s.w0 == t0 as int % w,
                    s.w1 == t1 as int % w,
                    s.w2 == t2 as int % w,
                    s.w3 == t3 as int % w,
                    s@ == s.w0 + s.w1 * w + s.w2 * w * w + s.w3 * w * w * w,
                    self@ == self.w0 + self.w1 * w + self.w2 * w * w + self.w3 * w * w * w,
                    o@ == o.w0 + o.w1 * w + o.w2 * w * w + o.w3 * w * w * w,
            ;
            lemma_bound(s);
            assert(k3 == 0) by (nonlinear_arith)
                requires
                    s@ - k3 * (w * w * w * w) == self@ - o@,
                    self@ >= o@,
                    0 <= s@ < w * w * w * w,
                    k3 == 0 || k3 == 1,
                    w > 0,
            ;
        }
        Some(s)
    }

    /// `self * m`, None when it does not fit in 256 bits.
    pub fn checked_mul_u64(&self, m: u64) -> (r: Option<U256>)
        ensures
            match r {
                Some(s) => s@ == self@ * m,
                None => self@ * m >= u256_bound(),
            },
    {
        let b: u128 = 0x1_0000_0000_0000_0000;
        let mm = m as u128;
        proof {
            assert(b as int == word());
            lemma_word_mul(self.w0, m, 0);
        }
        let t0 = self.w0 as u128 * mm;
        let c0 = t0 / b;
        proof {
            lemma_word_mul(self.w1, m, c0 as int);
        }
        let t1 = self.w1 as u128 * mm + c0;
        let c1 = t1 / b;
        proof {
            lemma_word_mul(self.w2, m, c1 as int);
        }
        let t2 = self.w2 as u128 * mm + c1;
        let c2 = t2 / b;
        proof {
            lemma_word_mul(self.w3, m, c2 as int);
        }
        let t3 = self.w3 as u128 * mm + c2;
        let c3 = t3 / b;
        let s = U256 { w0: (t0 % b) as u64, w1: (t1 % b) as u64, w2: (t2 % b) as u64, w3: (t3 % b) as u64 };
        proof {
            let w = word();
            assert(s@ + c3 * (w * w * w * w) == self@ * m) by (nonlinear_arith)
                requires
                    w == 0x1_0000_0000_0000_0000,
                    t0 == self.w0 * m,
                    t0 == (t0 as int % w) + c0 * w,
                    t1 == self.w1 * m + c0,
                    t1 == (t1 as int % w) + c1 * w,
                    t2 == self.w2 * m + c1,
                    t2 == (t2 as int % w) + c2 * w,
                    t3 == self.w3 * m + c2,
                    t3 == (t3 as int % w) + c3 * w,
                    s.w0 == t0 as int % w,
                    s.w1 == t1 as int % w,
                    s.w2 == t2 as int % w,
                    s.w3 == t3 as int % w,
                    s@ == s.w0 + s.w1 * w + s.w2 * w * w + s.w3 * w * w * w,
                    self@ == self.w0 + self.w1 * w + self.w2 * w * w + self.w3 * w * w * w,
            ;
            lemma_bound(s);
        }
        if c3 != 0 {
            proof {
                let w4 = word() * word() * word() * word();
                assert(c3 * w4 >= w4) by (nonlinear_arith)
                    requires
                        c3 >= 1,
                        w4 > 0,
                ;
                assert(w4 == u256_bound());
            }
            None
        } else {
            proof {
                let w4 = word() * word() * word() * word();
                assert(c3 * w4 == 0) by (nonlinear_arith)
                    requires
                        c3 == 0,
                ;
                assert(s@ + c3 * w4 == self@ * m);
                assert(s@ == self@ * m);
            }
            Some(s)
        }
    }
}

/// A word times a word plus a carry below 2^64 fits in 128 bits, with a carry below 2^64.
proof fn lemma_word_mul(a: u64, m: u64, c: int)
    requires
        0 <= c < word(),
    ensures
        a * m + c <= (word() - 1) * (word() - 1) + word() - 1,
        (a * m + c) / word() < word(),
        a * m + c < 0x1_0000_0000_0000_0000_0000_0000_0000_0000,
{
    let w = word();
    assert(a * m <= (w - 1) * (w - 1)) by (nonlinear_arith)
        requires
            0 <= a < w,
            0 <= m < w,
    ;
    assert((a * m + c) / w < w) by (nonlinear_arith)
        requires
            0 <= a * m + c <= (w - 1) * (w - 1) + w - 1,
            w == 0x1_0000_0000_0000_0000,
    ;
}

proof fn lemma_cmp(a: U256, b: U256)
    ensures
        a.w3 != b.w3 ==> (a@ < b@ <==> a.w3 < b.w3),
        a.w3 == b.w3 && a.w2 != b.w2 ==> (a@ < b@ <==> a.w2 < b.w2),
        a.w3 == b.w3 && a.w2 == b.w2 && a.w1 != b.w1 ==> (a@ < b@ <==> a.w1 < b.w1),
        a.w3 == b.w3 && a.w2 == b.w2 && a.w1 == b.w1 ==> (a@ < b@ <==> a.w0 < b.w0),
{
    let w = word();
    let lo_a = a.w0 + a.w1 * w + a.w2 * w * w;
    let lo_b = b.w0 + b.w1 * w + b.w2 * w * w;
    assert(0 <= lo_a < w * w * w && 0 <= lo_b < w * w * w) by (nonlinear_arith)
        requires
            w == 0x1_0000_0000_0000_0000,
            0 <= a.w0 < w, 0 <= a.w1 < w, 0 <= a.w2 < w,
            0 <= b.w0 < w, 0 <= b.w1 < w, 0 <= b.w2 < w,
            lo_a == a.w0 + a.w1 * w + a.w2 * w * w,
            lo_b == b.w0 + b.w1 * w + b.w2 * w * w,
    ;
    assert(a.w3 < b.w3 ==> a@ < b@) by (nonlinear_arith)
        requires
            a@ == lo_a + a.w3 * w * w * w,
            b@ == lo_b + b.w3 * w * w * w,
            0 <= lo_a < w * w * w,
            0 <= lo_b,
            w > 0,
    ;
    assert(b.w3 < a.w3 ==> b@ < a@) by (nonlinear_arith)
        requires
            a@ == lo_a + a.w3 * w * w * w,
            b@ == lo_b + b.w3 * w * w * w,
            0 <= lo_b < w * w * w,
            0 <= lo_a,
            w > 0,
    ;
    let mid_a = a.w0 + a.w1 * w;
    let mid_b = b.w0 + b.w1 * w;
    assert(0 <= mid_a < w * w && 0 <= mid_b < w * w) by (nonlinear_arith)
        requires
            w == 0x1_0000_0000_0000_0000,
            0 <= a.w0 < w, 0 <= a.w1 < w,
            0 <= b.w0 < w, 0 <= b.w1 < w,
            mid_a == a.w0 + a.w1 * w,
            mid_b == b.w0 + b.w1 * w,
    ;
    assert(a.w3 == b.w3 && a.w2 < b.w2 ==> a@ < b@) by (nonlinear_arith)
        requires
            a@ == mid_a + a.w2 * w * w + a.w3 * w * w * w,
            b@ == mid_b + b.w2 * w * w + b.w3 * w * w * w,
            0 <= mid_a < w * w,
            0 <= mid_b,
            w > 0,
    ;
    assert(a.w3 == b.w3 && b.w2 < a.w2 ==> b@ < a@) by (nonlinear_arith)
        requires
            a@ == mid_a + a.w2 * w * w + a.w3 * w * w * w,
            b@ == mid_b + b.w2 * w * w + b.w3 * w * w * w,
            0 <= mid_b < w * w,
            0 <= mid_a,
            w > 0,
    ;
    assert(a.w3 == b.w3 && a.w2 == b.w2 && a.w1 < b.w1 ==> a@ < b@) by (nonlinear_arith)
        requires
            a@ == a.w0 + a.w1 * w + a.w2 * w * w + a.w3 * w * w * w,
            b@ == b.w0 + b.w1 * w + b.w2 * w * w + b.w3 * w * w * w,
            0 <= a.w0 < w,
            0 <= b.w0,
    ;
    assert(a.w3 == b.w3 && a.w2 == b.w2 && b.w1 < a.w1 ==> b@ < a@) by (nonlinear_arith)
        requires
            a@ == a.w0 + a.w1 * w + a.w2 * w * w + a.w3 * w * w * w,
            b@ == b.w0 + b.w1 * w + b.w2 * w * w + b.w3 * w * w * w,
            0 <= b.w0 < w,
            0 <= a.w0,
    ;
}

} // verus!
