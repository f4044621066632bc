//! The nodes of the sparse memory tree.
//!
//! Addresses are signed; internally each address maps to an unsigned
//! 128-bit key by two's complement, and the tree covers aligned blocks
//! of the key space.  A page holds sixteen bits; a branch at level `l`
//! covers an aligned block of `2^(5+l)` keys split into two halves,
//! each half either absent or covered by a child whose own block lies
//! within it.  A branch at the top level covers the whole key space.

use vstd::prelude::*;
use vstd::arithmetic::power2::pow2;
use super::twiddling::spec_word_bit;

verus! {

/// Bytes per page.
pub const PAGE_SIZE: usize = 2;

/// Children per branch.
pub const BRANCH_FACTOR: usize = 2;

/// Log2 of the number of keys a page covers.
pub const PAGE_BITS: u32 = 4;

/// The highest branch level: a branch there covers every key.
pub const TOP_LEVEL: u32 = 123;

/// A node of the memory tree.
pub enum Node {
    Page { row_index: u128, bits: [u8; PAGE_SIZE] },
    Branch { level: BranchLevel, row_index: u128, child0: Option<Box<Node>>, child1: Option<
        Box<Node>,
    > },
}

/// `pow2` as a plain integer.
pub open spec fn spec_pow2(b: int) -> int {
    pow2(b as nat) as int
}

/// The values of the large powers of two the tree reasons about.
pub proof fn lemma_pow2_128()
    ensures
        spec_pow2(4) == 16,
        spec_pow2(124) == 0x10000000000000000000000000000000int,
        spec_pow2(126) == 0x40000000000000000000000000000000int,
        spec_pow2(127) == 0x80000000000000000000000000000000int,
        spec_pow2(128) == 0x100000000000000000000000000000000int,
{
    vstd::arithmetic::power2::lemma2_to64();
    vstd::arithmetic::power2::lemma2_to64_rest();
    vstd::arithmetic::power2::lemma_pow2_adds(64, 60);
    vstd::arithmetic::power2::lemma_pow2_adds(64, 62);
    vstd::arithmetic::power2::lemma_pow2_adds(64, 63);
    vstd::arithmetic::power2::lemma_pow2_adds(64, 64);
}

/// The unsigned 128-bit key of a signed address, by two's complement.
pub open spec fn addr_key(address: i128) -> int {
    if address >= 0 {
        address as int
    } else {
        address as int + spec_pow2(128)
    }
}

/// Log2 of the number of keys this node's block covers.
pub open spec fn node_bits(n: Node) -> int {
    match n {
        Node::Page { .. } => PAGE_BITS as int,
        Node::Branch { level, .. } => 5 + level.0 as int,
    }
}

/// The index of this node's block among blocks of its size.
pub open spec fn node_row(n: Node) -> int {
    match n {
        Node::Page { row_index, .. } => row_index as int,
        Node::Branch { row_index, .. } => row_index as int,
    }
}

/// First key of this node's block.
pub open spec fn node_lo(n: Node) -> int {
    node_row(n) * spec_pow2(node_bits(n))
}

/// Number of keys this node's block covers.
pub open spec fn node_size(n: Node) -> int {
    spec_pow2(node_bits(n))
}

/// The key falls within this node's block.
pub open spec fn node_contains(n: Node, k: int) -> bool {
    node_lo(n) <= k < node_lo(n) + node_size(n)
}

/// Well-formedness of a tree: blocks stay within the key space, levels
/// within range, and each child's block within its own half of its
/// parent's block.
pub open spec fn node_wf(n: Node) -> bool
    decreases n,
{
    match n {
        Node::Page { row_index, bits } => row_index as int * 16 + 16 <= spec_pow2(128),
        Node::Branch { level, row_index, child0, child1 } => {
            let b = 5 + level.0 as int;
            let lo = row_index as int * spec_pow2(b);
            let half = spec_pow2(b - 1);
            &&& level.0 <= TOP_LEVEL
            &&& lo + spec_pow2(b) <= spec_pow2(128)
            &&& (child0 matches Option::Some(c) ==> node_wf(*c) && node_bits(*c) <= b - 1 && lo
                <= node_lo(*c) && node_lo(*c) + node_size(*c) <= lo + half)
            &&& (child1 matches Option::Some(c) ==> node_wf(*c) && node_bits(*c) <= b - 1 && lo
                + half <= node_lo(*c) && node_lo(*c) + node_size(*c) <= lo + spec_pow2(b))
        },
    }
}

/// The bit stored for a key, if this subtree covers it.
pub open spec fn node_get(n: Node, k: int) -> Option<bool>
    decreases n,
{
    if !node_contains(n, k) {
        Option::None
    } else {
        match n {
            Node::Page { row_index, bits } => {
                let off = k - row_index as int * 16;
                if off < 8 {
                    Option::Some(spec_word_bit(bits[0], off))
                } else {
                    Option::Some(spec_word_bit(bits[1], off - 8))
                }
            },
            Node::Branch { level, row_index, child0, child1 } => {
                let b = 5 + level.0 as int;
                let lo = row_index as int * spec_pow2(b);
                let half = spec_pow2(b - 1);
                if k < lo + half {
                    match child0 {
                        Option::None => Option::None,
                        Option::Some(c) => node_get(*c, k),
                    }
                } else {
                    match child1 {
                        Option::None => Option::None,
                        Option::Some(c) => node_get(*c, k),
                    }
                }
            },
        }
    }
}

/// The bit stored for a key: an uncovered key reads as zero.
pub open spec fn node_read(n: Node, k: int) -> bool {
    match node_get(n, k) {
        Option::Some(b) => b,
        Option::None => false,
    }
}

/// The aligned block with the given row and size covers the block
/// `[lo, lo + size)` as well as the key `k`.
pub open spec fn block_covers(row2: int, b2: int, lo: int, size: int, k: int) -> bool {
    &&& row2 * spec_pow2(b2) <= lo
    &&& lo + size <= row2 * spec_pow2(b2) + spec_pow2(b2)
    &&& row2 * spec_pow2(b2) <= k < row2 * spec_pow2(b2) + spec_pow2(b2)
}

/// Two to a small power, at run time.
pub fn pow2_u128(b: u32) -> (r: u128)
    requires
        b <= 127,
    ensures
        r as int == spec_pow2(b as int),
{
    proof {
        vstd::arithmetic::power2::lemma2_to64();
    }
    let mut r: u128 = 1;
    let mut i: u32 = 0;
    while i < b
        invariant
            i <= b <= 127,
            r as int == spec_pow2(i as int),
        decreases b - i,
    {
        proof {
            vstd::arithmetic::power2::lemma_pow2_adds(i as nat, 1);
            vstd::arithmetic::power2::lemma2_to64();
            lemma_pow2_128();
            if (i as nat) < 127 {
                vstd::arithmetic::power2::lemma_pow2_strictly_increases(i as nat, 127);
            }
        }
        r = r * 2;
        i += 1;
    }
    r
}

/// The key of an address: the address itself when it is not negative,
/// otherwise its two's complement image in the upper half of the key
/// space.
pub fn address_key(address: i128) -> (k: u128)
    ensures
        k as int == addr_key(address),
{
    proof {
        lemma_pow2_128();
    }
    if address >= 0 {
        address as u128
    } else {
        let down = -(address + 1);
        u128::MAX - (down as u128)
    }
}

/// A block at a given level contains a key exactly when the key's row
/// at that level is the block's row.
pub proof fn lemma_block_row(k: int, row: int, b: int)
    requires
        b >= 0,
        k >= 0,
    ensures
        (row * spec_pow2(b) <= k < row * spec_pow2(b) + spec_pow2(b)) <==> (k / spec_pow2(b)
            == row),
{
    let p = spec_pow2(b);
    vstd::arithmetic::power2::lemma_pow2_pos(b as nat);
    vstd::arithmetic::div_mod::lemma_fundamental_div_mod(k, p);
    vstd::arithmetic::div_mod::lemma_mod_bound(k, p);
    if row * p <= k < row * p + p {
        assert(k / p == row) by (nonlinear_arith)
            requires
                p > 0,
                k == p * (k / p) + k % p,
                0 <= k % p < p,
                row * p <= k < row * p + p,
        ;
    }
    if k / p == row {
        assert(row * p <= k < row * p + p) by (nonlinear_arith)
            requires
                p > 0,
                k == p * (k / p) + k % p,
                0 <= k % p < p,
                k / p == row,
        ;
    }
}

/// Aligned blocks nest: when two aligned blocks share a key, the one
/// covering no more keys lies entirely within the other.
pub proof fn lemma_blocks_nest(row1: int, b1: int, row2: int, b2: int, k: int)
    requires
        0 <= b1 <= b2,
        row1 * spec_pow2(b1) <= k < row1 * spec_pow2(b1) + spec_pow2(b1),
        row2 * spec_pow2(b2) <= k < row2 * spec_pow2(b2) + spec_pow2(b2),
    ensures
        row2 * spec_pow2(b2) <= row1 * spec_pow2(b1),
        row1 * spec_pow2(b1) + spec_pow2(b1) <= row2 * spec_pow2(b2) + spec_pow2(b2),
{
    let p1 = spec_pow2(b1);
    let p2 = spec_pow2(b2);
    let t = spec_pow2(b2 - b1);
    vstd::arithmetic::power2::lemma_pow2_pos(b1 as nat);
    vstd::arithmetic::power2::lemma_pow2_pos(b2 as nat);
    vstd::arithmetic::power2::lemma_pow2_pos((b2 - b1) as nat);
    vstd::arithmetic::power2::lemma_pow2_adds(b1 as nat, (b2 - b1) as nat);
    assert(p2 == p1 * t);
    // both blocks contain k, so in units of p1 the rows interleave
    assert(row2 * t * p1 <= k < (row2 * t + t) * p1) by (nonlinear_arith)
        requires
            p2 == p1 * t,
            row2 * p2 <= k < row2 * p2 + p2,
    ;
    assert(row2 * t <= row1 < row2 * t + t) by (nonlinear_arith)
        requires
            p1 > 0,
            row2 * t * p1 <= k < (row2 * t + t) * p1,
            row1 * p1 <= k < row1 * p1 + p1,
    ;
    assert(row2 * p2 <= row1 * p1 && row1 * p1 + p1 <= row2 * p2 + p2) by (nonlinear_arith)
        requires
            p1 > 0,
            t > 0,
            p2 == p1 * t,
            row2 * t <= row1 < row2 * t + t,
    ;
}

impl Node {
    /// A fresh all-zero page at the given row.
    pub fn page(row_index: u128) -> (n: Node)
        requires
            row_index as int * 16 + 16 <= spec_pow2(128),
        ensures
            node_wf(n),
            n == (Node::Page { row_index, bits: [0u8, 0u8] }),
            node_bits(n) == 4,
            node_row(n) == row_index as int,
            forall|k: int|
                #[trigger] node_get(n, k) == (if node_contains(n, k) {
                    Option::Some(false)
                } else {
                    Option::<bool>::None
                }),
    {
        let n = Node::Page { row_index, bits: [0u8, 0u8] };
        proof {
            assert(spec_pow2(4) == 16) by {
                vstd::arithmetic::power2::lemma2_to64();
            }
            assert forall|k: int| #[trigger] node_get(n, k) == (if node_contains(n, k) {
                Option::Some(false)
            } else {
                Option::<bool>::None
            }) by {
                if node_contains(n, k) {
                    let off = k - row_index as int * 16;
                    let j = if off < 8 {
                        off
                    } else {
                        off - 8
                    };
                    vstd::arithmetic::power2::lemma_pow2_pos(j as nat);
                    assert(0int / spec_pow2(j) == 0) by {
                        vstd::arithmetic::div_mod::lemma_basic_div(0, spec_pow2(j));
                    }
                    assert(!spec_word_bit(0u8, j));
                }
            }
        }
        n
    }

    /// A fresh all-zero page whose block contains the given address.
    pub fn page_containing_address(address: i128) -> (n: Node)
        ensures
            node_wf(n),
            node_bits(n) == 4,
            node_contains(n, addr_key(address)),
            forall|k: int|
                #[trigger] node_get(n, k) == (if node_contains(n, k) {
                    Option::Some(false)
                } else {
                    Option::<bool>::None
                }),
    {
        let k = address_key(address);
        let row = k / 16;
        proof {
            lemma_key_range(address);
            lemma_pow2_128();
            lemma_block_row(k as int, row as int, 4);
            vstd::arithmetic::power2::lemma_pow2_adds(124, 4);
            assert((row as int) < spec_pow2(124)) by (nonlinear_arith)
                requires
                    (row as int) * 16 <= k as int,
                    (k as int) < spec_pow2(124) * 16,
            ;
        }
        Node::page(row)
    }

    /// The index of this node's block among blocks of its size.
    pub fn row_index(&self) -> (r: u128)
        ensures
            r as int == node_row(*self),
    {
        match self {
            Node::Page { row_index, .. } => *row_index,
            Node::Branch { row_index, .. } => *row_index,
        }
    }

    /// The row that the given address falls in, at this node's level.
    pub fn row_index_of_address(&self, address: i128) -> (r: u128)
        requires
            node_wf(*self),
        ensures
            r as int == addr_key(address) / spec_pow2(node_bits(*self)),
    {
        let k = address_key(address);
        proof {
            lemma_key_range(address);
        }
        match self {
            Node::Page { .. } => {
                proof {
                    assert(spec_pow2(4) == 16) by {
                        vstd::arithmetic::power2::lemma2_to64();
                    }
                }
                k / 16
            },
            Node::Branch { level, .. } => {
                if level.0 == TOP_LEVEL {
                    proof {
                        vstd::arithmetic::power2::lemma_pow2_pos(128);
                        vstd::arithmetic::div_mod::lemma_basic_div(k as int, spec_pow2(128));
                    }
                    0
                } else {
                    let scale = pow2_u128(5 + level.0);
                    proof {
                        vstd::arithmetic::power2::lemma_pow2_pos((5 + level.0) as nat);
                    }
                    k / scale
                }
            },
        }
    }
}

/// Keys fit in 128 bits.
pub proof fn lemma_key_range(address: i128)
    ensures
        0 <= addr_key(address) < spec_pow2(128),
{
    lemma_pow2_128();
}

/// A level of the memory tree: how many keys one block at that level
/// covers, as a power of two, and which level sits above it.
pub trait TreeLevel {
    type Parent;

    /// Log2 of the number of keys one block at this level covers.
    spec fn spec_bits(&self) -> int;

    /// The level is within the tree.
    spec fn wf(&self) -> bool;

    /// A level above this one exists within the tree.
    spec fn can_ascend(&self) -> bool;

    /// Log2 of the number of keys one block at the level above covers.
    spec fn spec_parent_bits(&self) -> int;

    /// The number of keys one block at this level covers.
    fn scale_factor(&self) -> (s: u128)
        requires
            self.wf(),
            self.spec_bits() <= 127,
        ensures
            s as int == spec_pow2(self.spec_bits()),
    ;

    /// How many blocks of this level one block of the level above
    /// holds.
    fn slots(&self) -> (c: u128)
        requires
            self.wf(),
            self.can_ascend(),
        ensures
            c as int == spec_pow2(self.spec_parent_bits() - self.spec_bits()),
            self.spec_bits() < self.spec_parent_bits() <= 128,
            2 <= c <= 256,
    ;

    /// The level above this one.
    fn parent(&self) -> Self::Parent
        requires
            self.wf(),
            self.can_ascend(),
    ;
}

/// The level of single bits.
#[derive(Copy, Clone, PartialEq, Eq, Structural, Debug)]
pub struct BitLevel;

impl TreeLevel for BitLevel {
    type Parent = WordLevel;

    open spec fn spec_bits(&self) -> int {
        0
    }

    open spec fn wf(&self) -> bool {
        true
    }

    open spec fn can_ascend(&self) -> bool {
        true
    }

    open spec fn spec_parent_bits(&self) -> int {
        3
    }

    fn scale_factor(&self) -> (s: u128)
        ensures
            s as int == spec_pow2(self.spec_bits()),
    {
        proof {
            vstd::arithmetic::power2::lemma2_to64();
        }
        1
    }

    fn slots(&self) -> (c: u128)
        ensures
            c as int == spec_pow2(self.spec_parent_bits() - self.spec_bits()),
            self.spec_bits() < self.spec_parent_bits() <= 128,
            2 <= c <= 256,
    {
        proof {
            vstd::arithmetic::power2::lemma2_to64();
        }
        8
    }

    fn parent(&self) -> (p: Self::Parent)
        ensures
            p == WordLevel,
    {
        WordLevel
    }
}

/// The level of bytes.
#[derive(Copy, Clone, PartialEq, Eq, Structural, Debug)]
pub struct WordLevel;

impl TreeLevel for WordLevel {
    type Parent = PageLevel;

    open spec fn spec_bits(&self) -> int {
        3
    }

    open spec fn wf(&self) -> bool {
        true
    }

    open spec fn can_ascend(&self) -> bool {
        true
    }

    open spec fn spec_parent_bits(&self) -> int {
        4
    }

    fn scale_factor(&self) -> (s: u128)
        ensures
            s as int == spec_pow2(self.spec_bits()),
    {
        proof {
            vstd::arithmetic::power2::lemma2_to64();
        }
        8
    }

    fn slots(&self) -> (c: u128)
        ensures
            c as int == spec_pow2(self.spec_parent_bits() - self.spec_bits()),
            self.spec_bits() < self.spec_parent_bits() <= 128,
            2 <= c <= 256,
    {
        proof {
            vstd::arithmetic::power2::lemma2_to64();
        }
        2
    }

    fn parent(&self) -> (p: Self::Parent)
        ensures
            p == PageLevel,
    {
        PageLevel
    }
}

/// The level of pages.
#[derive(Copy, Clone, PartialEq, Eq, Structural, Debug)]
pub struct PageLevel;

impl TreeLevel for PageLevel {
    type Parent = BranchLevel;

    open spec fn spec_bits(&self) -> int {
        4
    }

    open spec fn wf(&self) -> bool {
        true
    }

    open spec fn can_ascend(&self) -> bool {
        true
    }

    open spec fn spec_parent_bits(&self) -> int {
        5
    }

    fn scale_factor(&self) -> (s: u128)
        ensures
            s as int == spec_pow2(self.spec_bits()),
    {
        proof {
            vstd::arithmetic::power2::lemma2_to64();
        }
        16
    }

    fn slots(&self) -> (c: u128)
        ensures
            c as int == spec_pow2(self.spec_parent_bits() - self.spec_bits()),
            self.spec_bits() < self.spec_parent_bits() <= 128,
            2 <= c <= 256,
    {
        proof {
            vstd::arithmetic::power2::lemma2_to64();
        }
        2
    }

    fn parent(&self) -> (p: Self::Parent)
        ensures
            p == BranchLevel(0u32),
    {
        BranchLevel(0)
    }
}

/// The level of a branch: level `l` covers `2^(5+l)` keys.
#[derive(Copy, Clone, PartialEq, Eq, Structural, Debug)]
pub struct BranchLevel(pub u32);

impl TreeLevel for BranchLevel {
    type Parent = BranchLevel;

    open spec fn spec_bits(&self) -> int {
        5 + self.0 as int
    }

    open spec fn wf(&self) -> bool {
        self.0 <= TOP_LEVEL
    }

    open spec fn can_ascend(&self) -> bool {
        self.0 < TOP_LEVEL
    }

    open spec fn spec_parent_bits(&self) -> int {
        6 + self.0 as int
    }

    fn scale_factor(&self) -> (s: u128)
        ensures
            s as int == spec_pow2(self.spec_bits()),
    {
        pow2_u128(5 + self.0)
    }

    fn slots(&self) -> (c: u128)
        ensures
            c as int == spec_pow2(self.spec_parent_bits() - self.spec_bits()),
            self.spec_bits() < self.spec_parent_bits() <= 128,
            2 <= c <= 256,
    {
        proof {
            vstd::arithmetic::power2::lemma2_to64();
        }
        2
    }

    fn parent(&self) -> (p: Self::Parent)
        ensures
            p == BranchLevel((self.0 + 1) as u32),
    {
        BranchLevel(self.0 + 1)
    }
}

/// The level of a branch's children, one below the branch itself.
#[derive(Copy, Clone, PartialEq, Eq, Structural, Debug)]
pub struct ChildOfBranchLevel(pub BranchLevel);

impl TreeLevel for ChildOfBranchLevel {
    type Parent = BranchLevel;

    open spec fn spec_bits(&self) -> int {
        4 + (self.0).0 as int
    }

    open spec fn wf(&self) -> bool {
        (self.0).0 <= TOP_LEVEL
    }

    open spec fn can_ascend(&self) -> bool {
        (self.0).0 <= TOP_LEVEL
    }

    open spec fn spec_parent_bits(&self) -> int {
        5 + (self.0).0 as int
    }

    fn scale_factor(&self) -> (s: u128)
        ensures
            s as int == spec_pow2(self.spec_bits()),
    {
        pow2_u128(4 + (self.0).0)
    }

    fn slots(&self) -> (c: u128)
        ensures
            c as int == spec_pow2(self.spec_parent_bits() - self.spec_bits()),
            self.spec_bits() < self.spec_parent_bits() <= 128,
            2 <= c <= 256,
    {
        proof {
            vstd::arithmetic::power2::lemma2_to64();
        }
        2
    }

    fn parent(&self) -> (p: Self::Parent)
        ensures
            p == self.0,
    {
        self.0
    }
}

/// The row that an address falls in, at the given level.
pub fn row_index<T: TreeLevel>(address: i128, level: T) -> (r: u128)
    requires
        level.wf(),
        level.spec_bits() <= 127,
    ensures
        r as int == addr_key(address) / spec_pow2(level.spec_bits()),
{
    let k = address_key(address);
    let scale = level.scale_factor();
    proof {
        lemma_key_range(address);
        vstd::arithmetic::power2::lemma_pow2_pos(level.spec_bits() as nat);
    }
    k / scale
}

/// The child slot that an address falls in, within its block at the
/// level above the given one.
pub fn child_index<T: TreeLevel>(address: i128, level: T) -> (i: usize)
    requires
        level.wf(),
        level.can_ascend(),
        level.spec_bits() <= 127,
    ensures
        i as int == (addr_key(address) / spec_pow2(level.spec_bits())) % spec_pow2(
            level.spec_parent_bits() - level.spec_bits(),
        ),
        i < spec_pow2(level.spec_parent_bits() - level.spec_bits()),
{
    let k = address_key(address);
    let scale = level.scale_factor();
    let count = level.slots();
    proof {
        lemma_key_range(address);
        vstd::arithmetic::power2::lemma_pow2_pos(level.spec_bits() as nat);
        vstd::arithmetic::power2::lemma_pow2_pos(
            (level.spec_parent_bits() - level.spec_bits()) as nat,
        );
        vstd::arithmetic::div_mod::lemma_mod_bound(
            (k as int) / spec_pow2(level.spec_bits()),
            spec_pow2(level.spec_parent_bits() - level.spec_bits()),
        );
    }
    let slot = (k / scale) % count;
    slot as usize
}

} // verus!
