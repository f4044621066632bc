//! Reading one bit out of the memory tree.

use vstd::prelude::*;
use super::node::{Node, BitLevel, WordLevel, ChildOfBranchLevel, child_index, node_wf, node_get,
node_bits, node_row, addr_key, spec_pow2, lemma_block_row, lemma_key_range, lemma_pow2_128};
use super::twiddling::{get_word_bit, spec_word_bit};

verus! {

/// Splitting a block in two: which half a key falls in, read off the
/// key's row one level down.
pub proof fn lemma_half_of_block(k: int, row: int, b: int)
    requires
        b >= 1,
        k >= 0,
        row >= 0,
        row * spec_pow2(b) <= k < row * spec_pow2(b) + spec_pow2(b),
    ensures
        ((k / spec_pow2(b - 1)) % 2 == 0) <==> (k < row * spec_pow2(b) + spec_pow2(b - 1)),
        (k / spec_pow2(b - 1)) % 2 == 0 || (k / spec_pow2(b - 1)) % 2 == 1,
{
    let p = spec_pow2(b - 1);
    vstd::arithmetic::power2::lemma_pow2_pos((b - 1) as nat);
    vstd::arithmetic::power2::lemma_pow2_adds((b - 1) as nat, 1);
    vstd::arithmetic::power2::lemma2_to64();
    assert(spec_pow2(b) == p * 2);
    assert(row * (p * 2) == (2 * row) * p) by (nonlinear_arith);
    if k < row * spec_pow2(b) + p {
        lemma_block_row(k, 2 * row, b - 1);
        assert(k / p == 2 * row);
        vstd::arithmetic::div_mod::lemma_mod_multiples_vanish(row, 0, 2);
    } else {
        assert((2 * row + 1) * p == (2 * row) * p + p) by (nonlinear_arith);
        lemma_block_row(k, 2 * row + 1, b - 1);
        assert(k / p == 2 * row + 1);
        vstd::arithmetic::div_mod::lemma_mod_multiples_vanish(row, 1, 2);
    }
    vstd::arithmetic::div_mod::lemma_mod_bound(k / p, 2);
}

/// Where a key sits within its page: which byte, and which bit of it.
pub proof fn lemma_page_slot(k: int, row: int)
    requires
        k >= 0,
        row >= 0,
        row * 16 <= k < row * 16 + 16,
    ensures
        (k / 8) % 2 == (if k - row * 16 < 8 {
            0int
        } else {
            1int
        }),
        k % 8 == (if k - row * 16 < 8 {
            k - row * 16
        } else {
            k - row * 16 - 8
        }),
{
    lemma_pow2_128();
    vstd::arithmetic::power2::lemma2_to64();
    assert(spec_pow2(4) == 16 && spec_pow2(3) == 8);
    lemma_half_of_block(k, row, 4);
    let off = k - row * 16;
    assert(k == 8 * (2 * row) + off) by (nonlinear_arith)
        requires
            off == k - row * 16,
    ;
    vstd::arithmetic::div_mod::lemma_mod_multiples_vanish(2 * row, off, 8);
    assert(k % 8 == off % 8);
    if off < 8 {
        vstd::arithmetic::div_mod::lemma_small_mod(off as nat, 8);
    } else {
        vstd::arithmetic::div_mod::lemma_mod_sub_multiples_vanish(off, 8);
        vstd::arithmetic::div_mod::lemma_small_mod((off - 8) as nat, 8);
    }
}

/// Look a bit up in the tree: its value where the tree covers the
/// address, nothing where it does not.
pub fn search_bit(root: &Node, address: i128) -> (r: Option<bool>)
    requires
        node_wf(*root),
    ensures
        r == node_get(*root, addr_key(address)),
    decreases *root,
{
    let ghost k = addr_key(address);
    let row = root.row_index();
    let addr_row = root.row_index_of_address(address);
    proof {
        lemma_key_range(address);
        lemma_block_row(k, node_row(*root), node_bits(*root));
    }
    if row != addr_row {
        return Option::None;
    }
    match root {
        Node::Page { row_index, bits } => {
            proof {
                lemma_pow2_128();
                lemma_page_slot(k, *row_index as int);
            }
            let word_index = child_index(address, WordLevel);
            let bit_index = child_index(address, BitLevel);
            proof {
                vstd::arithmetic::div_mod::lemma_div_basics(k);
                assert(spec_pow2(0) == 1 && spec_pow2(3) == 8 && spec_pow2(1) == 2) by {
                    vstd::arithmetic::power2::lemma2_to64();
                }
            }
            let word = if word_index == 0 {
                bits[0]
            } else {
                bits[1]
            };
            let value = get_word_bit(word, bit_index as u8);
            Option::Some(value)
        },
        Node::Branch { level, row_index, child0, child1 } => {
            let slot = child_index(address, ChildOfBranchLevel(*level));
            proof {
                assert(node_bits(*root) == 5 + level.0 as int);
                assert(spec_pow2(1) == 2) by {
                    vstd::arithmetic::power2::lemma2_to64();
                }
                lemma_half_of_block(k, node_row(*root), node_bits(*root));
            }
            if slot == 0 {
                match child0 {
                    Option::None => Option::None,
                    Option::Some(c) => search_bit(&**c, address),
                }
            } else {
                match child1 {
                    Option::None => Option::None,
                    Option::Some(c) => search_bit(&**c, address),
                }
            }
        },
    }
}

} // verus!
