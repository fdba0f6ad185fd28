//! 256-bit unsigned EVM words with verified wraparound arithmetic.
//!
//! A [`Word`] holds four 64-bit limbs, least significant first.  Its
//! mathematical value is [`Word::as_nat`], always below `pow2(256)`.
//! Addition and multiplication truncate modulo `pow2(256)`, matching the
//! EVM's 256-bit integer semantics.

use vstd::arithmetic::div_mod::{
    lemma_basic_div, lemma_div_denominator, lemma_div_multiples_vanish_fancy,
    lemma_fundamental_div_mod, lemma_hoist_over_denominator, lemma_mod_multiples_vanish,
    lemma_mul_mod_noop_left, lemma_small_mod,
};
use vstd::arithmetic::mul::{
    lemma_mul_inequality, lemma_mul_is_associative, lemma_mul_is_commutative,
    lemma_mul_is_distributive_add, lemma_mul_is_distributive_sub,
};
use vstd::arithmetic::power2::{lemma2_to64, lemma_pow2_adds, lemma_pow2_pos, pow2};
use vstd::bits::{lemma_u64_low_bits_mask_is_mod, lemma_u64_shr_is_div};
use vstd::prelude::*;

verus! {

/// A 256-bit unsigned integer, stored as four 64-bit limbs, least
/// significant limb first.
#[derive(Clone, Copy, PartialEq, Eq, Structural, Debug)]
pub struct Word {
    pub l0: u64,
    pub l1: u64,
    pub l2: u64,
    pub l3: u64,
}

/// The modulus of EVM word arithmetic, `2^256`.
pub open spec fn word_modulus() -> nat {
    pow2(256)
}

/// Wraparound addition of word values.
pub open spec fn add_wrap(a: nat, b: nat) -> nat {
    (a + b) % word_modulus()
}

/// Wraparound multiplication of word values.
pub open spec fn mul_wrap(a: nat, b: nat) -> nat {
    (a * b) % word_modulus()
}

/// Big-endian byte extraction as the `BYTE` opcode defines it: byte `0` is
/// the most significant of the 32 bytes of `value`; an offset of 32 or more
/// yields zero.
pub open spec fn byte_of(offset: nat, value: nat) -> nat {
    if offset >= 32 {
        0
    } else {
        value / pow2((8 * (31 - offset)) as nat) % 256
    }
}

impl Word {
    /// The mathematical value of this word.
    pub open spec fn as_nat(self) -> nat {
        (self.l0 + self.l1 * pow2(64) + self.l2 * pow2(128) + self.l3 * pow2(192)) as nat
    }
}

/// Numeric values of the powers of two that the limb layout uses.
pub proof fn lemma_word_pow2_facts()
    ensures
        pow2(0) == 1,
        pow2(8) == 256,
        pow2(64) == 0x10000000000000000,
        pow2(128) == 0x100000000000000000000000000000000,
        pow2(192) == 0x1000000000000000000000000000000000000000000000000,
        pow2(256) == pow2(192) * 0x10000000000000000,
{
    lemma2_to64();
    lemma_pow2_adds(64, 64);
    lemma_pow2_adds(64, 128);
    lemma_pow2_adds(64, 192);
    assert(pow2(128) == 0x10000000000000000 * 0x10000000000000000);
    assert(pow2(192) == 0x10000000000000000 * pow2(128));
    assert(pow2(256) == 0x10000000000000000 * pow2(192));
    lemma_mul_is_commutative(pow2(192) as int, 0x10000000000000000);
}

/// Every word's value is below `2^256`.
pub proof fn lemma_word_bound(w: Word)
    ensures
        w.as_nat() < pow2(256),
{
    lemma_word_pow2_facts();
    assert(w.l1 * pow2(64) <= 0xffffffffffffffff * pow2(64)) by {
        lemma_mul_inequality(w.l1 as int, 0xffffffffffffffff, pow2(64) as int);
    }
    assert(w.l2 * pow2(128) <= 0xffffffffffffffff * pow2(128)) by {
        lemma_mul_inequality(w.l2 as int, 0xffffffffffffffff, pow2(128) as int);
    }
    assert(w.l3 * pow2(192) <= 0xffffffffffffffff * pow2(192)) by {
        lemma_mul_inequality(w.l3 as int, 0xffffffffffffffff, pow2(192) as int);
    }
}

impl Word {
    /// The zero word.
    pub fn zero() -> (r: Word)
        ensures
            r.as_nat() == 0,
    {
        Word { l0: 0, l1: 0, l2: 0, l3: 0 }
    }

    /// The word whose value is `x`.
    pub fn from_u64(x: u64) -> (r: Word)
        ensures
            r.as_nat() == x,
    {
        Word { l0: x, l1: 0, l2: 0, l3: 0 }
    }

    /// Whether this word's value equals the 64-bit integer `x`.
    pub fn eq_u64(&self, x: u64) -> (r: bool)
        ensures
            r == (self.as_nat() == x),
    {
        proof {
            lemma_word_pow2_facts();
            if self.l1 >= 1 {
                lemma_mul_inequality(1, self.l1 as int, pow2(64) as int);
            }
            if self.l2 >= 1 {
                lemma_mul_inequality(1, self.l2 as int, pow2(128) as int);
            }
            if self.l3 >= 1 {
                lemma_mul_inequality(1, self.l3 as int, pow2(192) as int);
            }
        }
        self.l0 == x && self.l1 == 0 && self.l2 == 0 && self.l3 == 0
    }

    /// The low byte of this word, `as_nat() mod 256`.
    pub fn low_byte(&self) -> (r: u8)
        ensures
            r as nat == self.as_nat() % 256,
    {
        proof {
            lemma_word_pow2_facts();
            lemma_pow2_adds(8, 56);
            lemma_pow2_adds(8, 120);
            lemma_pow2_adds(8, 184);
            let rest: int = self.l1 * pow2(56) + self.l2 * pow2(120) + self.l3 * pow2(184);
            assert(self.l1 * pow2(64) == 256 * (self.l1 * pow2(56))) by {
                lemma_mul_is_associative(self.l1 as int, 256, pow2(56) as int);
                lemma_mul_is_commutative(self.l1 as int, 256);
                lemma_mul_is_associative(256, self.l1 as int, pow2(56) as int);
            }
            assert(self.l2 * pow2(128) == 256 * (self.l2 * pow2(120))) by {
                lemma_mul_is_associative(self.l2 as int, 256, pow2(120) as int);
                lemma_mul_is_commutative(self.l2 as int, 256);
                lemma_mul_is_associative(256, self.l2 as int, pow2(120) as int);
            }
            assert(self.l3 * pow2(192) == 256 * (self.l3 * pow2(184))) by {
                lemma_mul_is_associative(self.l3 as int, 256, pow2(184) as int);
                lemma_mul_is_commutative(self.l3 as int, 256);
                lemma_mul_is_associative(256, self.l3 as int, pow2(184) as int);
            }
            assert(256 * (self.l1 * pow2(56)) + 256 * (self.l2 * pow2(120)) + 256 * (self.l3
                * pow2(184)) == 256 * rest) by {
                lemma_mul_is_distributive_add(256, self.l1 * pow2(56) as int, self.l2 * pow2(120) as int);
                lemma_mul_is_distributive_add(
                    256,
                    self.l1 * pow2(56) + self.l2 * pow2(120),
                    self.l3 * pow2(184) as int,
                );
            }
            assert(self.as_nat() == 256 * rest + self.l0);
            lemma_mod_multiples_vanish(rest, self.l0 as int, 256);
            lemma_u64_low_bits_mask_is_mod(self.l0, 8);
            vstd::bits::lemma_low_bits_mask_values();
        }
        (self.l0 & 0xff) as u8
    }

    /// Wraparound addition: the value of the result is
    /// `(self + other) mod 2^256`.
    pub fn add_mod(&self, other: &Word) -> (r: Word)
        ensures
            r.as_nat() == (self.as_nat() + other.as_nat()) % word_modulus(),
    {
        let s0: u128 = self.l0 as u128 + other.l0 as u128;
        let c0: u64 = if s0 >= 0x10000000000000000u128 { 1 } else { 0 };
        let r0: u64 = (s0 - c0 as u128 * 0x10000000000000000u128) as u64;
        let s1: u128 = self.l1 as u128 + other.l1 as u128 + c0 as u128;
        let c1: u64 = if s1 >= 0x10000000000000000u128 { 1 } else { 0 };
        let r1: u64 = (s1 - c1 as u128 * 0x10000000000000000u128) as u64;
        let s2: u128 = self.l2 as u128 + other.l2 as u128 + c1 as u128;
        let c2: u64 = if s2 >= 0x10000000000000000u128 { 1 } else { 0 };
        let r2: u64 = (s2 - c2 as u128 * 0x10000000000000000u128) as u64;
        let s3: u128 = self.l3 as u128 + other.l3 as u128 + c2 as u128;
        let c3: u64 = if s3 >= 0x10000000000000000u128 { 1 } else { 0 };
        let r3: u64 = (s3 - c3 as u128 * 0x10000000000000000u128) as u64;
        let r = Word { l0: r0, l1: r1, l2: r2, l3: r3 };
        proof {
            lemma_word_pow2_facts();
            lemma_word_bound(r);
            assert(self.as_nat() + other.as_nat() == r.as_nat() + pow2(256) * c3);
            lemma_mod_multiples_vanish(c3 as int, r.as_nat() as int, pow2(256) as int);
            lemma_small_mod(r.as_nat(), pow2(256));
        }
        r
    }
}

/// The limb that holds bit `64 * j` of a word.
pub open spec fn limb_sel(w: Word, j: nat) -> u64 {
    if j == 0 {
        w.l0
    } else if j == 1 {
        w.l1
    } else if j == 2 {
        w.l2
    } else {
        w.l3
    }
}

/// Dividing out `pow2(jj + t)` of a limb-decomposed value and keeping `s`
/// bits reads those bits out of the selected limb, provided the window
/// `t .. t + s` stays inside the limb.
proof fn lemma_split_div_mod(lo: nat, limb: u64, hi: nat, jj: nat, t: nat, s: nat)
    requires
        lo < pow2(jj),
        t + s <= 64,
        0 < s,
    ensures
        ((lo + (limb + hi * pow2(64)) * pow2(jj)) as nat) / pow2((jj + t) as nat) % pow2(s)
            == limb as nat / pow2(t) % pow2(s),
{
    let v: nat = (limb + hi * pow2(64)) as nat;
    let x: nat = (lo + v * pow2(jj)) as nat;
    lemma_pow2_pos(jj);
    lemma_pow2_pos(t);
    lemma_pow2_pos(s);
    lemma_pow2_pos(64);
    // x / pow2(jj) == v
    assert(x == pow2(jj) * v + lo) by {
        lemma_mul_is_commutative(v as int, pow2(jj) as int);
    }
    lemma_div_multiples_vanish_fancy(v as int, lo as int, pow2(jj) as int);
    assert(x / pow2(jj) == v);
    // x / pow2(jj + t) == v / pow2(t)
    lemma_pow2_adds(jj, t);
    lemma_div_denominator(x as int, pow2(jj) as int, pow2(t) as int);
    assert(x / pow2((jj + t) as nat) == v / pow2(t));
    // v / pow2(t) == limb / pow2(t) + hi * pow2(64 - t)
    let h: nat = (hi * pow2((64 - t) as nat)) as nat;
    assert(hi * pow2(64) == h * pow2(t)) by {
        lemma_pow2_adds((64 - t) as nat, t);
        lemma_mul_is_associative(hi as int, pow2((64 - t) as nat) as int, pow2(t) as int);
    }
    assert(v == limb + h * pow2(t));
    lemma_hoist_over_denominator(limb as int, h as int, pow2(t));
    assert(v / pow2(t) == limb as nat / pow2(t) + h);
    // the high part vanishes modulo pow2(s)
    assert(h == pow2(s) * (hi * pow2((64 - t - s) as nat))) by {
        lemma_pow2_adds(s, (64 - t - s) as nat);
        lemma_mul_is_associative(hi as int, pow2((64 - t - s) as nat) as int, pow2(s) as int);
        lemma_mul_is_commutative(hi as int, pow2(s) as int);
        lemma_mul_is_associative(pow2(s) as int, hi as int, pow2((64 - t - s) as nat) as int);
        lemma_mul_is_commutative((hi * pow2((64 - t - s) as nat)) as int, pow2(s) as int);
    }
    lemma_mod_multiples_vanish(
        (hi * pow2((64 - t - s) as nat)) as int,
        (limb as nat / pow2(t)) as int,
        pow2(s) as int,
    );
}

/// Bits `64 * j + t .. 64 * j + t + s` of a word's value are the matching
/// bits of limb `j`.
proof fn lemma_limb_extract(w: Word, j: nat, t: nat, s: nat)
    requires
        j < 4,
        t + s <= 64,
        0 < s,
    ensures
        w.as_nat() / pow2((64 * j + t) as nat) % pow2(s) == limb_sel(w, j) as nat / pow2(t) % pow2(
            s,
        ),
{
    lemma_word_pow2_facts();
    if j == 0 {
        let hi: nat = (w.l1 + w.l2 * pow2(64) + w.l3 * pow2(128)) as nat;
        assert(w.l2 * pow2(128) * pow2(64) == w.l2 * pow2(192)) by {
            lemma_mul_is_associative(w.l2 as int, pow2(128) as int, pow2(64) as int);
        }
        assert(w.l3 * pow2(128) * pow2(64) == w.l3 * pow2(192)) by {
            lemma_mul_is_associative(w.l3 as int, pow2(128) as int, pow2(64) as int);
        }
        assert(w.as_nat() == 0 + (w.l0 + hi * pow2(64)) * pow2(0)) by {
            lemma_mul_is_distributive_add(
                pow2(64) as int,
                w.l1 as int,
                (w.l2 * pow2(64) + w.l3 * pow2(128)) as int,
            );
            lemma_mul_is_distributive_add(
                pow2(64) as int,
                (w.l2 * pow2(64)) as int,
                (w.l3 * pow2(128)) as int,
            );
        }
        lemma_pow2_pos(0);
        lemma_split_div_mod(0, w.l0, hi, 0, t, s);
    } else if j == 1 {
        let hi: nat = (w.l2 + w.l3 * pow2(64)) as nat;
        assert(w.as_nat() == w.l0 + (w.l1 + hi * pow2(64)) * pow2(64)) by {
            lemma_mul_is_distributive_add(
                pow2(64) as int,
                w.l1 as int,
                (hi * pow2(64)) as int,
            );
            lemma_mul_is_associative(w.l2 as int, pow2(64) as int, pow2(64) as int);
            lemma_mul_is_associative(w.l3 as int, pow2(128) as int, pow2(64) as int);
            lemma_mul_is_distributive_add(
                pow2(128) as int,
                w.l2 as int,
                (w.l3 * pow2(64)) as int,
            );
        }
        lemma_split_div_mod(w.l0 as nat, w.l1, hi, 64, t, s);
    } else if j == 2 {
        let lo: nat = (w.l0 + w.l1 * pow2(64)) as nat;
        let hi: nat = w.l3 as nat;
        assert(w.as_nat() == lo + (w.l2 + hi * pow2(64)) * pow2(128)) by {
            lemma_mul_is_distributive_add(pow2(128) as int, w.l2 as int, (hi * pow2(64)) as int);
            lemma_mul_is_associative(w.l3 as int, pow2(64) as int, pow2(128) as int);
        }
        assert(lo < pow2(128)) by {
            lemma_mul_inequality(w.l1 as int, 0xffffffffffffffff, pow2(64) as int);
        }
        lemma_split_div_mod(lo, w.l2, hi, 128, t, s);
    } else {
        let lo: nat = (w.l0 + w.l1 * pow2(64) + w.l2 * pow2(128)) as nat;
        assert(w.as_nat() == lo + (w.l3 + 0 * pow2(64)) * pow2(192));
        assert(lo < pow2(192)) by {
            lemma_mul_inequality(w.l1 as int, 0xffffffffffffffff, pow2(64) as int);
            lemma_mul_inequality(w.l2 as int, 0xffffffffffffffff, pow2(128) as int);
        }
        lemma_split_div_mod(lo, w.l3, 0, 192, t, s);
    }
}

impl Word {
    /// Whether bit `k` (counting from the least significant end) is set.
    pub fn bit(&self, k: usize) -> (b: bool)
        requires
            k < 256,
        ensures
            b == (self.as_nat() / pow2(k as nat) % 2 == 1),
    {
        let limb: u64 = if k < 64 {
            self.l0
        } else if k < 128 {
            self.l1
        } else if k < 192 {
            self.l2
        } else {
            self.l3
        };
        let t: u64 = (k % 64) as u64;
        let v: u64 = (limb >> t) & 1;
        proof {
            let j: nat = (k / 64) as nat;
            assert(64 * j + (t as nat) == k);
            assert(limb == limb_sel(*self, j));
            lemma_limb_extract(*self, j, t as nat, 1);
            lemma_u64_shr_is_div(limb, t);
            lemma_u64_low_bits_mask_is_mod(limb >> t, 1);
            vstd::bits::lemma_low_bits_mask_values();
            lemma2_to64();
        }
        v == 1
    }

    /// Wraparound multiplication: the value of the result is
    /// `(self * other) mod 2^256`.
    pub fn mul_mod(&self, other: &Word) -> (r: Word)
        ensures
            r.as_nat() == (self.as_nat() * other.as_nat()) % word_modulus(),
    {
        let a: Word = *self;
        let b: Word = *other;
        let mut acc = Word::zero();
        proof {
            lemma_word_bound(b);
            lemma_pow2_pos(256);
            lemma_basic_div(b.as_nat() as int, pow2(256) as int);
            assert(b.as_nat() / pow2(256) == 0);
            vstd::arithmetic::mul::lemma_mul_basics(a.as_nat() as int);
            lemma_small_mod(0, pow2(256));
        }
        let mut i: usize = 0;
        while i < 256
            invariant
                i <= 256,
                acc.as_nat() == (a.as_nat() * (b.as_nat() / pow2((256 - i) as nat))) % pow2(256),
            decreases 256 - i,
        {
            let doubled = acc.add_mod(&acc);
            let set = b.bit(255 - i);
            let next = if set {
                doubled.add_mod(&a)
            } else {
                doubled
            };
            proof {
                lemma_word_bound(a);
                lemma_mul_step(
                    a.as_nat(),
                    b.as_nat(),
                    i as nat,
                    acc.as_nat(),
                    doubled.as_nat(),
                    next.as_nat(),
                    set,
                );
            }
            acc = next;
            i = i + 1;
        }
        proof {
            lemma2_to64();
            assert(b.as_nat() / pow2(0) == b.as_nat()) by {
                vstd::arithmetic::div_mod::lemma_div_basics_1(b.as_nat() as int);
            }
        }
        acc
    }
}

/// One double-and-add step preserves the running-product invariant of
/// [`Word::mul_mod`].
proof fn lemma_mul_step(av: nat, bv: nat, i: nat, accv: nat, dv: nat, nv: nat, set: bool)
    requires
        i < 256,
        accv == (av * (bv / pow2((256 - i) as nat))) % pow2(256),
        dv == (accv + accv) % pow2(256),
        set == (bv / pow2((255 - i) as nat) % 2 == 1),
        nv == if set {
            (dv + av) % pow2(256)
        } else {
            dv
        },
        av < pow2(256),
    ensures
        nv == (av * (bv / pow2((255 - i) as nat))) % pow2(256),
{
    let m: nat = pow2(256);
    lemma_pow2_pos(256);
    let p: nat = bv / pow2((256 - i) as nat);
    let q: nat = bv / pow2((255 - i) as nat);
    // q / 2 == p, and q == 2 * p + bit
    assert(q / 2 == p) by {
        lemma2_to64();
        lemma_pow2_adds((255 - i) as nat, 1);
        lemma_pow2_pos((255 - i) as nat);
        lemma_div_denominator(bv as int, pow2((255 - i) as nat) as int, 2);
    }
    lemma_fundamental_div_mod(q as int, 2);
    let bit: nat = q % 2;
    assert((q as int) == 2 * ((q as int) / 2) + ((q as int) % 2));
    assert((q as int) / 2 == (q / 2) as int);
    assert((q as int) % 2 == bit as int);
    assert(q as int == 2 * (p as int) + (bit as int));
    assert(q == 2 * p + bit) by (nonlinear_arith)
        requires
            q as int == 2 * (p as int) + (bit as int),
    ;
    // a * q == 2 * (a * p) + a * bit
    assert(av * q == 2 * (av * p) + av * bit) by {
        lemma_mul_is_distributive_add(av as int, (2 * p) as int, bit as int);
        lemma_mul_is_associative(av as int, 2, p as int);
        lemma_mul_is_commutative(av as int, 2);
        lemma_mul_is_associative(2, av as int, p as int);
    }
    // doubling stays in step: dv == (2 * (a * p)) % m
    assert(dv == (2 * (av * p)) % m) by {
        assert(accv + accv == ((av * p) % m) * 2);
        lemma_mul_mod_noop_left((av * p) as int, 2, m as int);
        lemma_mul_is_commutative((av * p) as int, 2);
    }
    if set {
        assert(bit == 1);
        assert(av * q == 2 * (av * p) + av);
        assert(nv == ((2 * (av * p)) % m + av % m) % m) by {
            lemma_small_mod(av, m);
        }
        vstd::arithmetic::div_mod::lemma_add_mod_noop((2 * (av * p)) as int, av as int, m as int);
    } else {
        assert(bit == 0);
        assert(av * q == 2 * (av * p));
    }
}

impl Word {
    /// The `BYTE` opcode: select the byte of `value` at big-endian offset
    /// `offset` (byte 0 is the most significant), zero-extended; offsets of
    /// 32 or more give zero.
    pub fn byte_value(offset: &Word, value: &Word) -> (r: Word)
        ensures
            r.as_nat() == byte_of(offset.as_nat(), value.as_nat()),
    {
        proof {
            lemma_word_pow2_facts();
            if offset.l1 >= 1 {
                lemma_mul_inequality(1, offset.l1 as int, pow2(64) as int);
            }
            if offset.l2 >= 1 {
                lemma_mul_inequality(1, offset.l2 as int, pow2(128) as int);
            }
            if offset.l3 >= 1 {
                lemma_mul_inequality(1, offset.l3 as int, pow2(192) as int);
            }
        }
        if offset.l1 != 0 || offset.l2 != 0 || offset.l3 != 0 || offset.l0 >= 32 {
            Word::zero()
        } else {
            let i: u64 = offset.l0;
            let pos: u64 = 8 * (31 - i);
            let (limb, t): (u64, u64) = if pos < 64 {
                (value.l0, pos)
            } else if pos < 128 {
                (value.l1, pos - 64)
            } else if pos < 192 {
                (value.l2, pos - 128)
            } else {
                (value.l3, pos - 192)
            };
            let b: u64 = (limb >> t) & 0xff;
            proof {
                let j: nat = (pos / 64) as nat;
                assert(64 * j + (t as nat) == pos);
                assert(limb == limb_sel(*value, j));
                lemma_limb_extract(*value, j, t as nat, 8);
                lemma_u64_shr_is_div(limb, t);
                lemma_u64_low_bits_mask_is_mod(limb >> t, 8);
                vstd::bits::lemma_low_bits_mask_values();
                lemma2_to64();
            }
            Word::from_u64(b)
        }
    }
}

/// The value of a big-endian byte string.
pub open spec fn be_bytes_val(s: Seq<u8>) -> nat
    decreases s.len(),
{
    if s.len() == 0 {
        0
    } else {
        (be_bytes_val(s.drop_last()) * 256 + s.last()) as nat
    }
}

/// Concatenation splits a big-endian value into a shifted high part plus the
/// low part.
proof fn lemma_be_bytes_val_append(s: Seq<u8>, t: Seq<u8>)
    ensures
        be_bytes_val(s + t) == be_bytes_val(s) * pow2(8 * t.len()) + be_bytes_val(t),
    decreases t.len(),
{
    if t.len() == 0 {
        assert(s + t =~= s);
        lemma2_to64();
        assert(be_bytes_val(s) * pow2(0) == be_bytes_val(s));
    } else {
        let t1 = t.drop_last();
        lemma_be_bytes_val_append(s, t1);
        assert((s + t).drop_last() =~= s + t1);
        assert((s + t).last() == t.last());
        lemma2_to64();
        lemma_pow2_adds(8 * t1.len(), 8);
        let b: nat = be_bytes_val(s);
        assert((b * pow2(8 * t1.len()) + be_bytes_val(t1)) * 256 == b * pow2(8 * t1.len()) * 256
            + be_bytes_val(t1) * 256) by {
            lemma_mul_is_distributive_add(
                256,
                (b * pow2(8 * t1.len())) as int,
                be_bytes_val(t1) as int,
            );
            lemma_mul_is_commutative((b * pow2(8 * t1.len()) + be_bytes_val(t1)) as int, 256);
            lemma_mul_is_commutative((b * pow2(8 * t1.len())) as int, 256);
            lemma_mul_is_commutative(be_bytes_val(t1) as int, 256);
        }
        assert(b * pow2(8 * t1.len()) * 256 == b * pow2(8 * t.len())) by {
            lemma_mul_is_associative(b as int, pow2(8 * t1.len()) as int, 256);
        }
    }
}

/// Reads eight big-endian bytes starting at `start`.
fn be_chunk(bytes: &Vec<u8>, start: usize) -> (r: u64)
    requires
        start + 8 <= bytes@.len(),
    ensures
        r as nat == be_bytes_val(bytes@.subrange(start as int, start as int + 8)),
{
    let n = bytes.len();
    let mut acc: u64 = 0;
    let mut j: usize = 0;
    proof {
        assert(bytes@.subrange(start as int, start as int) =~= Seq::<u8>::empty());
        lemma2_to64();
    }
    while j < 8
        invariant
            j <= 8,
            start + 8 <= n == bytes@.len(),
            acc as nat == be_bytes_val(bytes@.subrange(start as int, start as int + j)),
            acc < pow2(8 * j as nat),
        decreases 8 - j,
    {
        proof {
            lemma2_to64();
            lemma_pow2_adds(8 * j as nat, 8);
            if 8 * (j + 1) < 64 {
                vstd::arithmetic::power2::lemma_pow2_strictly_increases(8 * (j + 1) as nat, 64);
            }
            assert(acc as nat * 256 + 255 < pow2(8 * (j + 1) as nat)) by {
                lemma_mul_inequality(acc as int, pow2(8 * j as nat) - 1, 256);
                lemma_mul_is_distributive_sub(256, pow2(8 * j as nat) as int, 1);
                lemma_mul_is_commutative((pow2(8 * j as nat) - 1) as int, 256);
                lemma_mul_is_commutative(pow2(8 * j as nat) as int, 256);
            }
            assert(bytes@.subrange(start as int, start as int + j + 1).drop_last() =~= bytes@
                .subrange(start as int, start as int + j));
        }
        acc = acc * 256 + bytes[start + j] as u64;
        j = j + 1;
    }
    acc
}

impl Word {
    /// The word whose value the 32 bytes spell in big-endian order.
    pub fn from_be_bytes(bytes: &Vec<u8>) -> (r: Word)
        requires
            bytes@.len() == 32,
        ensures
            r.as_nat() == be_bytes_val(bytes@),
    {
        let l3 = be_chunk(bytes, 0);
        let l2 = be_chunk(bytes, 8);
        let l1 = be_chunk(bytes, 16);
        let l0 = be_chunk(bytes, 24);
        let r = Word { l0, l1, l2, l3 };
        proof {
            lemma_word_pow2_facts();
            let s = bytes@;
            let c3 = s.subrange(0, 8);
            let c2 = s.subrange(8, 16);
            let c1 = s.subrange(16, 24);
            let c0 = s.subrange(24, 32);
            assert(s =~= ((c3 + c2) + c1) + c0);
            lemma_be_bytes_val_append(c3, c2);
            lemma_be_bytes_val_append(c3 + c2, c1);
            lemma_be_bytes_val_append((c3 + c2) + c1, c0);
            assert(be_bytes_val(((c3 + c2) + c1) + c0) == (be_bytes_val(c3) * pow2(192)
                + be_bytes_val(c2) * pow2(128) + be_bytes_val(c1) * pow2(64) + be_bytes_val(c0)))
                by {
                let v3 = be_bytes_val(c3) as int;
                let v2 = be_bytes_val(c2) as int;
                let v1 = be_bytes_val(c1) as int;
                lemma_mul_is_distributive_add(pow2(64) as int, (v3 * pow2(128)) as int, v2 * pow2(64) as int);
                lemma_mul_is_distributive_add(
                    pow2(128) as int,
                    (v3 * pow2(64)) as int,
                    v2 as int,
                );
                lemma_mul_is_commutative((v3 * pow2(64) + v2) as int, pow2(64) as int);
                lemma_mul_is_commutative((v3 * pow2(128) + v2 * pow2(64) + v1) as int, pow2(64) as int);
                lemma_mul_is_distributive_add(
                    pow2(64) as int,
                    (v3 * pow2(128) + v2 * pow2(64)) as int,
                    v1 as int,
                );
                lemma_mul_is_associative(v3 as int, pow2(64) as int, pow2(64) as int);
                lemma_mul_is_associative(v3 as int, pow2(128) as int, pow2(64) as int);
                lemma_mul_is_associative(v2 as int, pow2(64) as int, pow2(64) as int);
            }
        }
        r
    }
}

} // verus!
