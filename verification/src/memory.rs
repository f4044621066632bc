//! Sparse, signed-address, bit-addressable storage.
//!
//! A [`Memory`] maps every signed 128-bit bit address to a bit, all
//! zero to begin with.  Bits are stored sparsely in a tree of pages
//! that grows, both upward and downward, only where bits are written;
//! see [`node`].

pub mod node;
pub mod twiddling;
pub mod read;
pub mod write;

use vstd::prelude::*;
use self::node::{Node, node_wf, node_read, node_bits, addr_key, lemma_pow2_128};

verus! {

/// Sparse storage of one bit per signed 128-bit address.
pub struct Memory {
    root: Box<Node>,
}

/// The keys of two distinct addresses are distinct.
pub proof fn lemma_addr_key_injective(a: i128, b: i128)
    requires
        addr_key(a) == addr_key(b),
    ensures
        a == b,
{
    lemma_pow2_128();
}

/// The number of node layers along the deepest path of a subtree.
pub open spec fn node_layers(n: Node) -> int
    decreases n,
{
    match n {
        Node::Page { .. } => 1,
        Node::Branch { child0, child1, .. } => {
            let l0 = match child0 {
                Option::Some(c) => node_layers(*c),
                Option::None => 0,
            };
            let l1 = match child1 {
                Option::Some(c) => node_layers(*c),
                Option::None => 0,
            };
            1 + if l0 >= l1 {
                l0
            } else {
                l1
            }
        },
    }
}

/// A tree is at most as deep as its block is wide.
proof fn lemma_layers_bounded(n: Node)
    requires
        node_wf(n),
    ensures
        1 <= node_layers(n) <= node_bits(n),
    decreases n,
{
    match n {
        Node::Page { .. } => {},
        Node::Branch { child0, child1, .. } => {
            match child0 {
                Option::Some(c) => {
                    lemma_layers_bounded(*c);
                },
                Option::None => {},
            }
            match child1 {
                Option::Some(c) => {
                    lemma_layers_bounded(*c);
                },
                Option::None => {},
            }
        },
    }
}

impl Node {
    /// How many node layers the deepest path of this subtree crosses.
    pub fn layers(&self) -> (n: usize)
        requires
            node_wf(*self),
        ensures
            n == node_layers(*self),
            1 <= n <= 128,
        decreases *self,
    {
        proof {
            lemma_layers_bounded(*self);
        }
        match self {
            Node::Page { .. } => 1,
            Node::Branch { child0, child1, .. } => {
                let l0: usize = match child0 {
                    Option::Some(c) => c.layers(),
                    Option::None => 0,
                };
                let l1: usize = match child1 {
                    Option::Some(c) => c.layers(),
                    Option::None => 0,
                };
                1 + if l0 >= l1 {
                    l0
                } else {
                    l1
                }
            },
        }
    }
}

impl Memory {
    /// The tree behind this memory is well formed.
    pub closed spec fn wf(self) -> bool {
        node_wf(*self.root)
    }

    /// The bit stored at an address: zero wherever nothing was written.
    pub closed spec fn spec_bit(self, address: i128) -> bool {
        node_read(*self.root, addr_key(address))
    }

    /// How many node layers the tree has, in specifications.
    pub closed spec fn spec_layers(self) -> int {
        node_layers(*self.root)
    }

    /// A memory with every bit zero.
    pub fn new() -> (m: Memory)
        ensures
            m.wf(),
            forall|a: i128| !#[trigger] m.spec_bit(a),
    {
        proof {
            lemma_pow2_128();
        }
        let m = Memory { root: Box::new(Node::page(0)) };
        m
    }

    /// Read the bit at an address; an address never written reads as
    /// false.
    pub fn get_bit(&self, address: i128) -> (b: bool)
        requires
            self.wf(),
        ensures
            b == self.spec_bit(address),
    {
        read::search_bit(&*self.root, address).unwrap_or(false)
    }

    /// Write the bit at an address, leaving every other address as it
    /// was.
    pub fn set_bit(&mut self, address: i128, bit: bool)
        requires
            old(self).wf(),
        ensures
            final(self).wf(),
            final(self).spec_bit(address) == bit,
            forall|a: i128|
                a != address ==> #[trigger] final(self).spec_bit(a) == old(self).spec_bit(a),
    {
        write::insert_bit(&mut self.root, address, bit);
        proof {
            assert forall|a: i128| a != address implies #[trigger] final(self).spec_bit(a) == old(
                self,
            ).spec_bit(a) by {
                if addr_key(a) == addr_key(address) {
                    lemma_addr_key_injective(a, address);
                }
            }
        }
    }

    /// How many node layers the tree currently has.
    pub fn tree_layers(&self) -> (n: usize)
        requires
            self.wf(),
        ensures
            n == self.spec_layers(),
    {
        self.root.layers()
    }
}

} // verus!
