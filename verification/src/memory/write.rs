//! Writing one bit into the memory tree.
//!
//! Writing first raises the tree until its block contains the address
//! ([`ascend`]), then descends, growing or re-rooting children on the
//! way, and finally flips one bit of one page.

use vstd::prelude::*;
use super::node::{Node, BranchLevel, BitLevel, WordLevel, ChildOfBranchLevel, TOP_LEVEL,
child_index, node_wf, node_get, node_read, node_contains, node_bits, node_row, node_lo, node_size,
addr_key, spec_pow2, block_covers, lemma_block_row, lemma_blocks_nest, lemma_key_range,
lemma_pow2_128};
use super::read::{lemma_half_of_block, lemma_page_slot};
use super::twiddling::{set_word_bit, spec_word_bit};

verus! {

/// A block can hold no more keys than one that covers it.
proof fn lemma_covers_bits(row2: int, b2: int, n: Node, k: int)
    requires
        b2 >= 0,
        block_covers(row2, b2, node_lo(n), node_size(n), k),
    ensures
        node_bits(n) <= b2,
{
    if b2 < node_bits(n) {
        vstd::arithmetic::power2::lemma_pow2_strictly_increases(b2 as nat, node_bits(n) as nat);
    }
}

/// Raise the tree by wrapping it in parent branches until its block
/// contains the given address.  What the tree stores does not change,
/// and the new block still lies within every aligned block that covered
/// both the old block and the address.
fn ascend(node: &mut Box<Node>, address: i128)
    requires
        node_wf(**old(node)),
    ensures
        node_wf(**final(node)),
        node_contains(**final(node), addr_key(address)),
        node_bits(**final(node)) >= node_bits(**old(node)),
        forall|k2: int| #[trigger] node_get(**final(node), k2) == node_get(**old(node), k2),
        forall|row2: int, b2: int|
            node_bits(**old(node)) <= b2 <= 128 && #[trigger] block_covers(
                row2,
                b2,
                node_lo(**old(node)),
                node_size(**old(node)),
                addr_key(address),
            ) ==> block_covers(
                row2,
                b2,
                node_lo(**final(node)),
                node_size(**final(node)),
                addr_key(address),
            ),
{
    let ghost k = addr_key(address);
    let ghost n0 = **node;
    proof {
        lemma_key_range(address);
        lemma_pow2_128();
        vstd::arithmetic::mul::lemma_mul_nonnegative(node_row(n0), spec_pow2(node_bits(n0)));
        assert(block_covers(0, 128, node_lo(n0), node_size(n0), k));
    }
    while node.row_index() != node.row_index_of_address(address)
        invariant
            node_wf(**node),
            k == addr_key(address),
            0 <= k < spec_pow2(128),
            node_bits(**node) >= node_bits(n0),
            block_covers(0, 128, node_lo(**node), node_size(**node), k),
            forall|k2: int| #[trigger] node_get(**node, k2) == node_get(n0, k2),
            forall|row2: int, b2: int|
                node_bits(n0) <= b2 <= 128 && #[trigger] block_covers(
                    row2,
                    b2,
                    node_lo(n0),
                    node_size(n0),
                    k,
                ) ==> block_covers(row2, b2, node_lo(**node), node_size(**node), k),
        decreases 128 - node_bits(**node),
    {
        let ghost cur = **node;
        let ghost b = node_bits(cur);
        proof {
            lemma_block_row(k, node_row(cur), b);
            assert(!node_contains(cur, k));
            lemma_pow2_128();
        }
        let (new_level, row) = match &**node {
            Node::Page { row_index, .. } => (BranchLevel(0), *row_index),
            Node::Branch { level, row_index, .. } => {
                proof {
                    if level.0 == TOP_LEVEL {
                        vstd::arithmetic::mul::lemma_mul_nonnegative(
                            node_row(cur),
                            spec_pow2(node_bits(cur)),
                        );
                        assert(node_size(cur) == spec_pow2(128));
                        assert(node_lo(cur) == 0);
                        assert(node_contains(cur, k));
                    }
                }
                (BranchLevel(level.0 + 1), *row_index)
            },
        };
        let parent_row = row / 2;
        let slot = row % 2;
        let mut tmp: Box<Node> = Box::new(Node::page(0));
        proof {
            lemma_pow2_128();
        }
        core::mem::swap(node, &mut tmp);
        let branch = if slot == 0 {
            Node::Branch {
                level: new_level,
                row_index: parent_row,
                child0: Option::Some(tmp),
                child1: Option::None,
            }
        } else {
            Node::Branch {
                level: new_level,
                row_index: parent_row,
                child0: Option::None,
                child1: Option::Some(tmp),
            }
        };
        *node = Box::new(branch);
        proof {
            let parent = **node;
            let pb = b + 1;
            let p = spec_pow2(b);
            let pp = spec_pow2(pb);
            vstd::arithmetic::power2::lemma_pow2_adds(b as nat, 1);
            vstd::arithmetic::power2::lemma2_to64();
            assert(pp == p * 2);
            vstd::arithmetic::div_mod::lemma_fundamental_div_mod(row as int, 2);
            let prow = row as int / 2;
            let s = row as int % 2;
            assert(row as int == 2 * prow + s);
            assert(node_bits(parent) == pb);
            assert(node_row(parent) == prow);
            let lo_c = node_lo(cur);
            let plo = node_lo(parent);
            assert(plo == prow * (p * 2));
            assert(prow * (p * 2) == (2 * prow) * p) by (nonlinear_arith);
            assert(lo_c == (2 * prow + s) * p);
            assert((2 * prow + s) * p == (2 * prow) * p + s * p) by (nonlinear_arith);
            assert(s == 0 || s == 1);
            if s == 0 {
                assert(s * p == 0) by (nonlinear_arith)
                    requires
                        s == 0,
                ;
            } else {
                assert(s * p == p) by (nonlinear_arith)
                    requires
                        s == 1,
                ;
            }
            assert(plo == lo_c - s * p);
            vstd::arithmetic::power2::lemma_pow2_pos(b as nat);
            vstd::arithmetic::power2::lemma_pow2_pos(pb as nat);
            assert(plo <= lo_c && lo_c + p <= plo + pp);
            // the parent block lies within the whole key space
            assert(node_lo(parent) == plo && node_size(parent) == pp);
            lemma_blocks_nest(node_row(parent), pb, 0, 128, lo_c);
            assert(node_wf(parent));
            // reading any key through the parent reads the old tree
            assert forall|k2: int| #[trigger] node_get(parent, k2) == node_get(cur, k2) by {
                if plo <= k2 < plo + pp {
                    if s == 0 {
                        if k2 < plo + p {
                            assert(node_get(parent, k2) == node_get(cur, k2));
                        } else {
                            assert(node_get(parent, k2) == Option::<bool>::None);
                            assert(!node_contains(cur, k2));
                        }
                    } else {
                        if k2 < plo + p {
                            assert(node_get(parent, k2) == Option::<bool>::None);
                            assert(!node_contains(cur, k2));
                        } else {
                            assert(node_get(parent, k2) == node_get(cur, k2));
                        }
                    }
                } else {
                    assert(!node_contains(parent, k2));
                    assert(!node_contains(cur, k2));
                }
            }
            // every block that covered the old block and the address
            // covers the parent block too
            assert forall|row2: int, b2: int|
                b <= b2 <= 128 && #[trigger] block_covers(row2, b2, lo_c, p, k) implies block_covers(
                row2,
                b2,
                plo,
                pp,
                k,
            ) by {
                if b2 == b {
                    assert(row2 * spec_pow2(b2) <= lo_c);
                    assert(lo_c + p <= row2 * spec_pow2(b2) + spec_pow2(b2));
                    assert(row2 * spec_pow2(b2) == lo_c);
                    assert(node_contains(cur, k));
                    assert(false);
                } else {
                    lemma_blocks_nest(node_row(parent), pb, row2, b2, lo_c);
                }
            }
            assert forall|row2: int, b2: int|
                node_bits(n0) <= b2 <= 128 && #[trigger] block_covers(
                    row2,
                    b2,
                    node_lo(n0),
                    node_size(n0),
                    k,
                ) implies block_covers(row2, b2, plo, pp, k) by {
                assert(block_covers(row2, b2, lo_c, p, k));
                lemma_covers_bits(row2, b2, cur, k);
                assert(block_covers(row2, b2, plo, pp, k));
            }
        }
    }
    proof {
        lemma_block_row(k, node_row(**node), node_bits(**node));
    }
}

/// Write one bit into a subtree whose block contains the address.  The
/// subtree's block does not move; within it, exactly the addressed bit
/// changes.
fn insert_in(node: &mut Node, address: i128, bit: bool)
    requires
        node_wf(*old(node)),
        node_contains(*old(node), addr_key(address)),
    ensures
        node_wf(*final(node)),
        node_bits(*final(node)) == node_bits(*old(node)),
        node_row(*final(node)) == node_row(*old(node)),
        forall|k2: int|
            #[trigger] node_read(*final(node), k2) == (if k2 == addr_key(address) {
                bit
            } else {
                node_read(*old(node), k2)
            }),
        forall|k2: int|
            !node_contains(*old(node), k2) ==> #[trigger] node_get(*final(node), k2) is None,
    decreases node_bits(*old(node)),
{
    let ghost k = addr_key(address);
    let ghost n0 = *node;
    proof {
        lemma_key_range(address);
        lemma_pow2_128();
        lemma_block_row(k, node_row(n0), node_bits(n0));
    }
    match node {
        Node::Page { row_index, bits } => {
            proof {
                lemma_page_slot(k, *row_index as int);
                vstd::arithmetic::div_mod::lemma_div_basics(k);
                assert(spec_pow2(0) == 1 && spec_pow2(3) == 8 && spec_pow2(1) == 2) by {
                    vstd::arithmetic::power2::lemma2_to64();
                }
            }
            let word_index = child_index(address, WordLevel);
            let bit_index = child_index(address, BitLevel);
            let b0 = bits[0];
            let b1 = bits[1];
            if word_index == 0 {
                let mut w = b0;
                set_word_bit(&mut w, bit_index as u8, bit);
                *bits = [w, b1];
            } else {
                let mut w = b1;
                set_word_bit(&mut w, bit_index as u8, bit);
                *bits = [b0, w];
            }
            proof {
                let row = *row_index as int;
                assert forall|k2: int| #[trigger] node_read(*node, k2) == (if k2 == k {
                    bit
                } else {
                    node_read(n0, k2)
                }) by {
                    if row * 16 <= k2 < row * 16 + 16 {
                        let off2 = k2 - row * 16;
                        let off = k - row * 16;
                        assert(node_contains(n0, k2));
                        assert(node_contains(*node, k2));
                    } else {
                        assert(!node_contains(*node, k2));
                        assert(!node_contains(n0, k2));
                    }
                }
            }
        },
        Node::Branch { level, row_index, child0, child1 } => {
            let ghost b = 5 + level.0 as int;
            let ghost lo = node_lo(n0);
            let ghost half = spec_pow2(b - 1);
            let slot = child_index(address, ChildOfBranchLevel(*level));
            proof {
                assert(spec_pow2(1) == 2) by {
                    vstd::arithmetic::power2::lemma2_to64();
                }
                vstd::arithmetic::power2::lemma_pow2_adds((b - 1) as nat, 1);
                lemma_half_of_block(k, node_row(n0), b);
            }
            if slot == 0 {
                if child0.is_none() {
                    *child0 = Option::Some(Box::new(Node::page_containing_address(address)));
                }
                match child0 {
                    Option::Some(c) => {
                        let ghost entry = **c;
                        proof {
                            // the entry child's block lies in the lower
                            // half, which also holds the address
                            assert((2 * node_row(n0)) * spec_pow2(b - 1) == node_row(n0)
                                * spec_pow2(b)) by (nonlinear_arith)
                                requires
                                    spec_pow2(b) == spec_pow2(b - 1) * 2,
                            ;
                            assert(block_covers(
                                2 * node_row(n0),
                                b - 1,
                                node_lo(entry),
                                node_size(entry),
                                k,
                            )) by {
                                match n0 {
                                    Node::Branch { child0: oc0, .. } => {
                                        match oc0 {
                                            Option::Some(oc) => {
                                                assert(entry == *oc);
                                            },
                                            Option::None => {
                                                lemma_blocks_nest(
                                                    node_row(entry),
                                                    node_bits(entry),
                                                    2 * node_row(n0),
                                                    b - 1,
                                                    k,
                                                );
                                            },
                                        }
                                    },
                                    _ => {
                                        assert(false);
                                    },
                                }
                            }
                        }
                        ascend(c, address);
                        let ghost c_mid = **c;
                        proof {
                            lemma_covers_bits(2 * node_row(n0), b - 1, **c, k);
                        }
                        insert_in(&mut **c, address, bit);
                        proof {
                            let c_fin = **c;
                            assert((2 * node_row(n0)) * spec_pow2(b - 1) + spec_pow2(b - 1)
                                == node_row(n0) * spec_pow2(b) + spec_pow2(b - 1)) by (nonlinear_arith)
                                requires
                                    spec_pow2(b) == spec_pow2(b - 1) * 2,
                            ;
                            assert(node_wf(*node));
                            assert forall|k2: int| #[trigger] node_read(*node, k2) == (if k2 == k {
                                bit
                            } else {
                                node_read(n0, k2)
                            }) by {
                                if lo <= k2 < lo + spec_pow2(b) {
                                    if k2 < lo + half {
                                        // the touched half routes through the child
                                        assert(node_get(*node, k2) == node_get(c_fin, k2));
                                        assert(node_read(c_fin, k2) == (if k2 == k {
                                            bit
                                        } else {
                                            node_read(c_mid, k2)
                                        }));
                                        assert(node_get(c_mid, k2) == node_get(entry, k2));
                                        match n0 {
                                            Node::Branch { child0: oc0, .. } => {
                                                match oc0 {
                                                    Option::Some(oc) => {
                                                        assert(node_get(n0, k2) == node_get(
                                                            *oc,
                                                            k2,
                                                        ));
                                                    },
                                                    Option::None => {
                                                        assert(node_get(n0, k2) is None);
                                                        assert(node_get(entry, k2)
                                                            == (if node_contains(entry, k2) {
                                                            Option::Some(false)
                                                        } else {
                                                            Option::<bool>::None
                                                        }));
                                                    },
                                                }
                                            },
                                            _ => {
                                                assert(false);
                                            },
                                        }
                                    } else {
                                        // the other half is untouched
                                        assert(node_get(*node, k2) == node_get(n0, k2));
                                        assert(k2 != k);
                                    }
                                } else {
                                    assert(!node_contains(n0, k2) && !node_contains(*node, k2));
                                }
                            }
                        }
                    },
                    Option::None => {
                        proof {
                            assert(false);
                        }
                    },
                }
            } else {
                if child1.is_none() {
                    *child1 = Option::Some(Box::new(Node::page_containing_address(address)));
                }
                match child1 {
                    Option::Some(c) => {
                        let ghost entry = **c;
                        proof {
                            assert((2 * node_row(n0) + 1) * spec_pow2(b - 1) == node_row(n0)
                                * spec_pow2(b) + spec_pow2(b - 1)) by (nonlinear_arith)
                                requires
                                    spec_pow2(b) == spec_pow2(b - 1) * 2,
                            ;
                            assert(block_covers(
                                2 * node_row(n0) + 1,
                                b - 1,
                                node_lo(entry),
                                node_size(entry),
                                k,
                            )) by {
                                match n0 {
                                    Node::Branch { child1: oc1, .. } => {
                                        match oc1 {
                                            Option::Some(oc) => {
                                                assert(entry == *oc);
                                            },
                                            Option::None => {
                                                lemma_blocks_nest(
                                                    node_row(entry),
                                                    node_bits(entry),
                                                    2 * node_row(n0) + 1,
                                                    b - 1,
                                                    k,
                                                );
                                            },
                                        }
                                    },
                                    _ => {
                                        assert(false);
                                    },
                                }
                            }
                        }
                        ascend(c, address);
                        let ghost c_mid = **c;
                        proof {
                            lemma_covers_bits(2 * node_row(n0) + 1, b - 1, **c, k);
                        }
                        insert_in(&mut **c, address, bit);
                        proof {
                            let c_fin = **c;
                            assert((2 * node_row(n0) + 1) * spec_pow2(b - 1) + spec_pow2(b - 1)
                                == node_row(n0) * spec_pow2(b) + spec_pow2(b)) by (nonlinear_arith)
                                requires
                                    spec_pow2(b) == spec_pow2(b - 1) * 2,
                            ;
                            assert(node_wf(*node));
                            assert forall|k2: int| #[trigger] node_read(*node, k2) == (if k2 == k {
                                bit
                            } else {
                                node_read(n0, k2)
                            }) by {
                                if lo <= k2 < lo + spec_pow2(b) {
                                    if k2 >= lo + half {
                                        // the touched half routes through the child
                                        assert(node_get(*node, k2) == node_get(c_fin, k2));
                                        assert(node_read(c_fin, k2) == (if k2 == k {
                                            bit
                                        } else {
                                            node_read(c_mid, k2)
                                        }));
                                        assert(node_get(c_mid, k2) == node_get(entry, k2));
                                        match n0 {
                                            Node::Branch { child1: oc0, .. } => {
                                                match oc0 {
                                                    Option::Some(oc) => {
                                                        assert(node_get(n0, k2) == node_get(
                                                            *oc,
                                                            k2,
                                                        ));
                                                    },
                                                    Option::None => {
                                                        assert(node_get(n0, k2) is None);
                                                        assert(node_get(entry, k2)
                                                            == (if node_contains(entry, k2) {
                                                            Option::Some(false)
                                                        } else {
                                                            Option::<bool>::None
                                                        }));
                                                    },
                                                }
                                            },
                                            _ => {
                                                assert(false);
                                            },
                                        }
                                    } else {
                                        // the other half is untouched
                                        assert(node_get(*node, k2) == node_get(n0, k2));
                                        assert(k2 != k);
                                    }
                                } else {
                                    assert(!node_contains(n0, k2) && !node_contains(*node, k2));
                                }
                            }
                        }
                    },
                    Option::None => {
                        proof {
                            assert(false);
                        }
                    },
                }
            }
        },
    }
}

/// Write one bit of the tree, raising and growing it as needed: after
/// the call exactly the addressed bit reads as the written value, and
/// every other address reads as it did before.
pub fn insert_bit(root: &mut Box<Node>, address: i128, bit: bool)
    requires
        node_wf(**old(root)),
    ensures
        node_wf(**final(root)),
        forall|k2: int|
            #[trigger] node_read(**final(root), k2) == (if k2 == addr_key(address) {
                bit
            } else {
                node_read(**old(root), k2)
            }),
{
    ascend(root, address);
    insert_in(&mut **root, address, bit);
}

} // verus!
