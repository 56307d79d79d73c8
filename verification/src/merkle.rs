//! The aggregate handed to callers: the root node plus its cached height,
//! built only through `Merkle::new`, which enforces the block-count rule.

use crate::tree::block_views;
use crate::tree::covers;
use crate::tree::lg;
use crate::tree::merkle_root;
use crate::tree::Node;
use vstd::arithmetic::power2::is_pow2;
use vstd::prelude::*;

verus! {

/// Why a build was refused.
#[derive(Debug, PartialEq, Eq)]
pub enum ErrorKind {
    /// Fewer than two blocks, or a count that is not a power of two.
    InvalidBlockCount,
}

/// The built tree: its root node and its height, both fixed at construction.
pub struct Merkle {
    head: Node,
    height: usize,
}

impl Merkle {
    /// The root node.
    pub closed spec fn spec_head(self) -> Node {
        self.head
    }

    /// The cached height.
    pub closed spec fn spec_height(self) -> nat {
        self.height as nat
    }

    /// The tree is well formed and perfect, and the cached height is its
    /// depth.
    pub closed spec fn wf(self) -> bool {
        self.head.wf() && self.head.perfect() && self.height == self.head.depth()
    }

    /// What a successful build over `blocks` guarantees: a well-formed
    /// perfect tree whose root digest is the FIFO reduction of the blocks'
    /// leaf digests; the height, log2 of the count plus one, is both cached
    /// and the root's depth; the root covers the whole block range by the
    /// FIFO pairing (each subtree owns one aligned power-of-two range), so
    /// the leaves hold exactly the input blocks.
    pub open spec fn built_from(self, blocks: Seq<Seq<u8>>) -> bool {
        self.wf() && self.spec_head().digest() == merkle_root(blocks) && self.spec_height() == lg(
            blocks.len(),
        ) + 1 && self.spec_head().depth() == self.spec_height() && covers(
            self.spec_head(),
            blocks,
            0,
            blocks.len(),
        ) && self.spec_head().leaf_blocks().to_multiset() == blocks.to_multiset()
    }

    /// Builds the tree over `blocks`. A count below two or not a power of
    /// two is refused with `InvalidBlockCount`, eagerly, before any hashing;
    /// every other count succeeds.
    pub fn new(blocks: Vec<Vec<u8>>) -> (r: Result<Self, ErrorKind>)
        ensures
            (r is Ok) == (blocks@.len() >= 2 && is_pow2(blocks@.len() as int)),
            (r matches Ok(m) ==> m.built_from(block_views(blocks@))),
            (r matches Err(e) ==> e == ErrorKind::InvalidBlockCount),
    {
        if blocks.len() < 2 || !is_power_of_two(blocks.len()) {
            return Err(ErrorKind::InvalidBlockCount);
        }
        proof {
            lemma_lg_below(blocks@.len());
        }
        let head = Node::from(blocks);
        let height = head.height();
        Ok(Merkle { head, height })
    }

    /// The root node.
    pub fn head(&self) -> (h: &Node)
        ensures
            *h == self.spec_head(),
    {
        &self.head
    }

    /// The tree's height.
    pub fn height(&self) -> (h: usize)
        ensures
            h == self.spec_height(),
    {
        self.height
    }
}

/// Two trees built over the same blocks carry the same root digest and the
/// same height: the build is deterministic.
pub proof fn lemma_build_deterministic(m1: Merkle, m2: Merkle, blocks: Seq<Seq<u8>>)
    requires
        m1.built_from(blocks),
        m2.built_from(blocks),
    ensures
        m1.spec_head().digest() == m2.spec_head().digest(),
        m1.spec_height() == m2.spec_height(),
{
}

/// The floor of log2 stays below its argument.
proof fn lemma_lg_below(n: nat)
    requires
        n >= 1,
    ensures
        lg(n) < n,
    decreases n,
{
    if n >= 2 {
        lemma_lg_below(n / 2);
    }
}

fn is_power_of_two(n: usize) -> (r: bool)
    ensures
        r == is_pow2(n as int),
    decreases n,
{
    proof {
        reveal(vstd::arithmetic::power2::is_pow2);
    }
    if n == 0 {
        false
    } else if n == 1 {
        true
    } else if n % 2 == 1 {
        proof {
            assert(n as int % 2 == 1);
            assert(!is_pow2(n as int));
        }
        false
    } else {
        proof {
            assert(n as int % 2 == 0);
            assert(n as int / 2 == (n / 2) as int);
            assert(is_pow2(n as int) == is_pow2(n as int / 2));
        }
        is_power_of_two(n / 2)
    }
}

} // verus!
