//! Integer helpers for the memory tree: flooring division and
//! single-bit access within a byte.

use vstd::prelude::*;

verus! {

/// The remainder of flooring division: in `[0, b)` whatever the sign of
/// `a`.
pub fn floor_rem(a: i128, b: i128) -> (r: i128)
    requires
        0 < b <= 0x40000000000000000000000000000000i128,
    ensures
        r == a as int % b as int,
{
    let t = a % b;
    let r = (t + b) % b;
    proof {
        let ai = a as int;
        let bi = b as int;
        if a >= 0 {
            assert(t == ai % bi);
            vstd::arithmetic::div_mod::lemma_mod_bound(ai, bi);
            vstd::arithmetic::div_mod::lemma_mod_add_multiples_vanish(t as int, bi);
            vstd::arithmetic::div_mod::lemma_small_mod((ai % bi) as nat, bi as nat);
        } else {
            assert(t == -((-ai) % bi));
            let m = (-ai) % bi;
            vstd::arithmetic::div_mod::lemma_mod_bound(-ai, bi);
            vstd::arithmetic::div_mod::lemma_fundamental_div_mod(-ai, bi);
            let q = (-ai) / bi;
            if m == 0 {
                assert(ai == (-q) * bi + 0) by (nonlinear_arith)
                    requires
                        -ai == bi * q + m && m == 0,
                ;
                vstd::arithmetic::div_mod::lemma_fundamental_div_mod_converse(ai, bi, -q, 0);
                vstd::arithmetic::div_mod::lemma_mod_self_0(bi);
            } else {
                assert(ai == (-q - 1) * bi + (bi - m)) by (nonlinear_arith)
                    requires
                        -ai == bi * q + m,
                ;
                vstd::arithmetic::div_mod::lemma_fundamental_div_mod_converse(
                    ai,
                    bi,
                    -q - 1,
                    bi - m,
                );
                vstd::arithmetic::div_mod::lemma_small_mod((bi - m) as nat, bi as nat);
            }
        }
    }
    r
}

/// Flooring division with its remainder.
pub fn floor_div_rem(a: i128, b: i128) -> (qr: (i128, i128))
    requires
        0 < b <= 0x40000000000000000000000000000000i128,
        a as int - (a as int % b as int) >= i128::MIN,
    ensures
        qr.0 == a as int / b as int,
        qr.1 == a as int % b as int,
{
    let rem = floor_rem(a, b);
    proof {
        vstd::arithmetic::div_mod::lemma_fundamental_div_mod(a as int, b as int);
        vstd::arithmetic::div_mod::lemma_mod_bound(a as int, b as int);
    }
    let num = a - rem;
    let quo = num / b;
    proof {
        let ai = a as int;
        let bi = b as int;
        let q = ai / bi;
        assert(num == bi * q);
        if num >= 0 {
            assert(quo == num as int / bi);
            vstd::arithmetic::div_mod::lemma_div_multiples_vanish(q, bi);
        } else {
            assert(quo == -((-(num as int)) / bi));
            assert(-(num as int) == bi * (-q)) by (nonlinear_arith)
                requires
                    num as int == bi * q,
            ;
            vstd::arithmetic::div_mod::lemma_div_multiples_vanish(-q, bi);
        }
    }
    (quo, rem)
}

/// Flooring division: rounds towards negative infinity whatever the
/// sign of `a`.
pub fn floor_div(a: i128, b: i128) -> (q: i128)
    requires
        0 < b <= 0x40000000000000000000000000000000i128,
        a as int - (a as int % b as int) >= i128::MIN,
    ensures
        q == a as int / b as int,
{
    let qr = floor_div_rem(a, b);
    qr.0
}

/// Bit `j` of a byte.
pub open spec fn spec_word_bit(word: u8, j: int) -> bool {
    (word as int / vstd::arithmetic::power2::pow2(j as nat) as int) % 2 == 1
}

/// Read one bit of a byte.
pub fn get_word_bit(word: u8, bit_index: u8) -> (b: bool)
    requires
        bit_index < 8,
    ensures
        b == spec_word_bit(word, bit_index as int),
{
    let r = (word & (1u8 << bit_index)) != 0;
    proof {
        lemma_word_bit_shift(word, bit_index);
    }
    r
}

/// Write one bit of a byte, leaving the others unchanged.
pub fn set_word_bit(word: &mut u8, bit_index: u8, bit: bool)
    requires
        bit_index < 8,
    ensures
        forall|j: int|
            0 <= j < 8 ==> #[trigger] spec_word_bit(*final(word), j) == (if j == bit_index as int {
                bit
            } else {
                spec_word_bit(*old(word), j)
            }),
{
    let w0 = *word;
    if bit {
        *word = *word | (1u8 << bit_index);
    } else {
        *word = *word & !(1u8 << bit_index);
    }
    proof {
        let w1 = *word;
        assert forall|j: int| 0 <= j < 8 implies #[trigger] spec_word_bit(w1, j) == (if j
            == bit_index as int {
            bit
        } else {
            spec_word_bit(w0, j)
        }) by {
            lemma_word_bit_shift(w0, j as u8);
            lemma_word_bit_shift(w1, j as u8);
            let jj = j as u8;
            let bi = bit_index;
            if bit {
                assert((((w0 | (1u8 << bi)) >> jj) & 1 == 1) == (if jj == bi {
                    true
                } else {
                    (w0 >> jj) & 1 == 1
                })) by (bit_vector)
                    requires
                        jj < 8 && bi < 8,
                ;
            } else {
                assert((((w0 & !(1u8 << bi)) >> jj) & 1 == 1) == (if jj == bi {
                    false
                } else {
                    (w0 >> jj) & 1 == 1
                })) by (bit_vector)
                    requires
                        jj < 8 && bi < 8,
                ;
            }
        }
    }
}

/// The arithmetic bit of a byte agrees with its shifted-and-masked bit.
proof fn lemma_word_bit_shift(word: u8, bit_index: u8)
    requires
        bit_index < 8,
    ensures
        spec_word_bit(word, bit_index as int) == ((word >> bit_index) & 1 == 1),
        ((word & (1u8 << bit_index)) != 0) == ((word >> bit_index) & 1 == 1),
{
    assert(((word & (1u8 << bit_index)) != 0) == ((word >> bit_index) & 1 == 1)) by (bit_vector)
        requires
            bit_index < 8,
    ;
    let p = vstd::arithmetic::power2::pow2(bit_index as nat) as int;
    assert((word >> bit_index) as int == word as int / p) by {
        vstd::bits::lemma_u8_shr_is_div(word, bit_index);
        vstd::arithmetic::power2::lemma_pow2_pos(bit_index as nat);
    }
    assert(((word >> bit_index) & 1 == 1) == ((word >> bit_index) as int % 2 == 1)) by {
        let s = word >> bit_index;
        assert((s & 1 == 1) == (s % 2 == 1)) by (bit_vector);
    }
}

} // verus!
