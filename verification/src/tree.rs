//! The tree itself: leaf and internal nodes, digest-ordered joining, and the
//! FIFO pairing that builds a perfect tree from a power-of-two block count.

use crate::utils::be_val;
use crate::utils::combined;
use crate::utils::hash_adder;
use crate::utils::lemma_combined_commutative;
use blake2::Blake2b512;
use blake2::Digest;
use vstd::arithmetic::div_mod::lemma_fundamental_div_mod_converse_div;
use vstd::arithmetic::power::pow;
use vstd::arithmetic::power2::is_pow2;
use vstd::arithmetic::power2::is_pow2_equiv;
use vstd::arithmetic::power2::lemma2_to64;
use vstd::arithmetic::power2::lemma_pow2;
use vstd::arithmetic::power2::lemma_pow2_adds;
use vstd::arithmetic::power2::lemma_pow2_pos;
use vstd::arithmetic::power2::lemma_pow2_strictly_increases;
use vstd::arithmetic::power2::lemma_pow2_unfold;
use vstd::arithmetic::power2::pow2;
use vstd::prelude::*;

verus! {

/// The digest of `bytes` under the 512-bit hash this tree is built on.
pub uninterp spec fn blake2b512_of(bytes: Seq<u8>) -> Seq<u8>;

/// Relies on blake2's `Blake2b512` through the `Digest` trait: `finalize`
/// returns a 64-byte digest that is a function of the updated bytes alone.
#[verifier::external_body]
fn blake2b512(bytes: &[u8]) -> (r: Vec<u8>)
    ensures
        r@ == blake2b512_of(bytes@),
        r@.len() == 64,
{
    let mut hasher = Blake2b512::new();
    hasher.update(bytes);
    hasher.finalize().to_vec()
}

/// A node of the tree: an internal node owns its two children, a leaf owns
/// the block it commits to; each carries its digest.
pub enum Node {
    Internal { hash: Vec<u8>, left: Box<Node>, right: Box<Node> },
    Leaf { hash: Vec<u8>, block: Vec<u8> },
}

/// The digest of the parent of two child digests: their big-endian sum,
/// re-hashed. Symmetric in its arguments, since the sum is.
pub open spec fn join_digest(d1: Seq<u8>, d2: Seq<u8>) -> Seq<u8> {
    blake2b512_of(combined(d1, d2))
}

/// The views of a sequence of byte blocks.
pub open spec fn block_views(bs: Seq<Vec<u8>>) -> Seq<Seq<u8>> {
    Seq::new(bs.len(), |i: int| bs[i]@)
}

/// The leaf digests of a sequence of blocks, in block order.
pub open spec fn leaf_digests(blocks: Seq<Seq<u8>>) -> Seq<Seq<u8>> {
    Seq::new(blocks.len(), |i: int| blake2b512_of(blocks[i]))
}

/// FIFO pairing over a queue of digests: repeatedly join the two front
/// digests and enqueue the parent digest at the back, down to one digest.
pub open spec fn reduce(ds: Seq<Seq<u8>>) -> Seq<u8>
    decreases ds.len(),
{
    if ds.len() == 0 {
        Seq::empty()
    } else if ds.len() == 1 {
        ds[0]
    } else {
        reduce(ds.skip(2).push(join_digest(ds[0], ds[1])))
    }
}

/// The root digest the builder produces for a sequence of blocks.
pub open spec fn merkle_root(blocks: Seq<Seq<u8>>) -> Seq<u8> {
    reduce(leaf_digests(blocks))
}

/// One pairing pass over an even-length queue of digests: element `i` is
/// the join of the digests at `2i` and `2i + 1`.
pub open spec fn pass(ds: Seq<Seq<u8>>) -> Seq<Seq<u8>> {
    Seq::new(ds.len() / 2, |i: int| join_digest(ds[2 * i], ds[2 * i + 1]))
}

/// Joining digests is symmetric: the big-endian sum beneath it is.
pub proof fn lemma_join_digest_symmetric(d1: Seq<u8>, d2: Seq<u8>)
    ensures
        join_digest(d1, d2) == join_digest(d2, d1),
{
    lemma_combined_commutative(d1, d2);
}

/// The stepwise FIFO reduction works through an even-length front segment
/// `ds` as one full pass, leaving its parents queued behind `t`.
proof fn lemma_reduce_pass(ds: Seq<Seq<u8>>, t: Seq<Seq<u8>>)
    requires
        ds.len() >= 2,
        ds.len() % 2 == 0,
    ensures
        reduce(ds + t) == reduce(t + pass(ds)),
    decreases ds.len(),
{
    let u = ds + t;
    let j01 = join_digest(ds[0], ds[1]);
    assert(u[0] == ds[0] && u[1] == ds[1]);
    assert(u.skip(2).push(join_digest(u[0], u[1])) =~= ds.skip(2) + (t + seq![j01]));
    assert(reduce(u) == reduce(u.skip(2).push(join_digest(u[0], u[1]))));
    if ds.len() == 2 {
        assert(ds.skip(2) + (t + seq![j01]) =~= t + pass(ds));
    } else {
        lemma_reduce_pass(ds.skip(2), t + seq![j01]);
        assert(pass(ds) =~= seq![j01] + pass(ds.skip(2)));
        assert((t + seq![j01]) + pass(ds.skip(2)) =~= t + pass(ds));
    }
}

/// A pass over the reversed queue is the reversed pass, since joining is
/// symmetric.
proof fn lemma_pass_reverse(ds: Seq<Seq<u8>>)
    requires
        ds.len() % 2 == 0,
    ensures
        pass(ds.reverse()) == pass(ds).reverse(),
{
    let n = ds.len() as int;
    assert forall|i: int| 0 <= i < n / 2 implies pass(ds.reverse())[i] == pass(ds).reverse()[i] by {
        lemma_join_digest_symmetric(ds[n - 2 - 2 * i], ds[n - 1 - 2 * i]);
        assert(pass(ds.reverse())[i] == join_digest(ds.reverse()[2 * i], ds.reverse()[2 * i + 1]));
        assert(pass(ds).reverse()[i] == pass(ds)[n / 2 - 1 - i]);
    }
    assert(pass(ds.reverse()) =~= pass(ds).reverse());
}

/// Reversing a power-of-two queue of digests does not change its FIFO
/// reduction: each pass of the reversed queue is the reversed pass, and a
/// single digest is its own reversal.
pub proof fn lemma_reduce_reverse(ds: Seq<Seq<u8>>)
    requires
        ds.len() >= 1,
        is_pow2(ds.len() as int),
    ensures
        reduce(ds.reverse()) == reduce(ds),
    decreases ds.len(),
{
    reveal(vstd::arithmetic::power2::is_pow2);
    if ds.len() == 1 {
        assert(ds.reverse() =~= ds);
    } else {
        assert(ds.len() % 2 == 0);
        lemma_reduce_pass(ds, Seq::empty());
        assert(ds + Seq::<Seq<u8>>::empty() =~= ds);
        assert(Seq::<Seq<u8>>::empty() + pass(ds) =~= pass(ds));
        lemma_reduce_pass(ds.reverse(), Seq::empty());
        assert(ds.reverse() + Seq::<Seq<u8>>::empty() =~= ds.reverse());
        assert(Seq::<Seq<u8>>::empty() + pass(ds.reverse()) =~= pass(ds.reverse()));
        lemma_pass_reverse(ds);
        assert(is_pow2(pass(ds).len() as int));
        lemma_reduce_reverse(pass(ds));
    }
}

/// Building over the blocks in reverse order yields the same root digest:
/// sibling ordering canonicalizes left/right placement, so the root commits
/// to the blocks independently of the direction they arrived in.
pub proof fn lemma_root_reversal(blocks: Seq<Seq<u8>>)
    requires
        blocks.len() >= 1,
        is_pow2(blocks.len() as int),
    ensures
        merkle_root(blocks.reverse()) == merkle_root(blocks),
{
    assert(leaf_digests(blocks.reverse()) =~= leaf_digests(blocks).reverse());
    lemma_reduce_reverse(leaf_digests(blocks));
}

/// The floor of the base-2 logarithm.
pub open spec fn lg(n: nat) -> nat
    decreases n,
{
    if n <= 1 {
        0
    } else {
        lg(n / 2) + 1
    }
}

/// The digests of a sequence of nodes, in order.
pub open spec fn digests_of(ns: Seq<Node>) -> Seq<Seq<u8>> {
    Seq::new(ns.len(), |i: int| ns[i].digest())
}

impl Node {
    /// The digest this node carries.
    pub open spec fn digest(self) -> Seq<u8> {
        match self {
            Node::Internal { hash, .. } => hash@,
            Node::Leaf { hash, .. } => hash@,
        }
    }

    /// Every digest in the tree is the hash the construction rules call for:
    /// a leaf hashes its block, an internal node hashes the big-endian sum
    /// of its children's digests, and the smaller child digest sits left.
    pub open spec fn wf(self) -> bool
        decreases self,
    {
        match self {
            Node::Leaf { hash, block } => hash@ == blake2b512_of(block@) && hash@.len() == 64,
            Node::Internal { hash, left, right } => (*left).wf() && (*right).wf() && hash@
                == join_digest((*left).digest(), (*right).digest()) && hash@.len() == 64 && be_val(
                (*left).digest(),
            ) <= be_val((*right).digest()),
        }
    }

    /// The number of nodes on the leftmost path, leaf included.
    pub open spec fn depth(self) -> nat
        decreases self,
    {
        match self {
            Node::Leaf { .. } => 1,
            Node::Internal { left, .. } => (*left).depth() + 1,
        }
    }

    /// Every internal node's children reach leaves at the same depth.
    pub open spec fn perfect(self) -> bool
        decreases self,
    {
        match self {
            Node::Leaf { .. } => true,
            Node::Internal { left, right, .. } => (*left).perfect() && (*right).perfect() && (
            *left).depth() == (*right).depth(),
        }
    }

    /// The left child of an internal node (itself for a leaf).
    pub open spec fn left_spec(self) -> Node {
        match self {
            Node::Internal { left, .. } => *left,
            Node::Leaf { .. } => self,
        }
    }

    /// The right child of an internal node (itself for a leaf).
    pub open spec fn right_spec(self) -> Node {
        match self {
            Node::Internal { right, .. } => *right,
            Node::Leaf { .. } => self,
        }
    }

    fn digest_ref(&self) -> (h: &Vec<u8>)
        ensures
            h@ == self.digest(),
    {
        match self {
            Node::Internal { hash, .. } => hash,
            Node::Leaf { hash, .. } => hash,
        }
    }

    /// A copy of this node's digest.
    pub fn hash(&self) -> (h: Vec<u8>)
        ensures
            h@ == self.digest(),
    {
        copy_bytes(self.digest_ref())
    }

    /// Hashes a block into the leaf that commits to it.
    pub fn new_leaf(block: Vec<u8>) -> (r: Self)
        ensures
            r.wf(),
            r.perfect(),
            r.depth() == 1,
            r.digest() == blake2b512_of(block@),
            (r matches Node::Leaf { hash: _, block: b } && b@ == block@),
    {
        let hash = blake2b512(block.as_slice());
        Node::Leaf { hash, block }
    }

    fn new_internal(left: Self, right: Self) -> (r: Self)
        requires
            left.wf(),
            right.wf(),
            be_val(left.digest()) <= be_val(right.digest()),
        ensures
            r.wf(),
            r.digest() == join_digest(left.digest(), right.digest()),
            r.depth() == left.depth() + 1,
            left.perfect() && right.perfect() && left.depth() == right.depth() ==> r.perfect(),
            (r matches Node::Internal { hash: _, left: l, right: rr } && *l == left && *rr
                == right),
    {
        let hash_sum = hash_adder(left.hash(), right.hash());
        let hash = blake2b512(hash_sum.as_slice());
        Node::Internal { hash, left: Box::new(left), right: Box::new(right) }
    }

    /// The blocks of the leaves under this node, left to right.
    pub open spec fn leaf_blocks(self) -> Seq<Seq<u8>>
        decreases self,
    {
        match self {
            Node::Leaf { hash: _, block } => seq![block@],
            Node::Internal { hash: _, left, right } => (*left).leaf_blocks()
                + (*right).leaf_blocks(),
        }
    }

    /// Joins two nodes under a fresh parent. The sibling order (`cmp_node`)
    /// alone decides which child goes left — digest bytes first, the node's
    /// own data as the equal-digest tiebreak — never the order the two
    /// arguments arrived in.
    pub fn join(self, node: Self) -> (r: Self)
        requires
            self.wf(),
            node.wf(),
        ensures
            r.wf(),
            r.digest() == join_digest(self.digest(), node.digest()),
            (r matches Node::Internal { hash: _, left: l, right: rr } && *l == left_of(self, node)
                && *rr == right_of(self, node)),
            self.perfect() && node.perfect() && self.depth() == node.depth() ==> r.perfect()
                && r.depth() == self.depth() + 1,
    {
        let c = cmp_node_exec(&self, &node);
        proof {
            let da = self.digest();
            let db = node.digest();
            if cmp_bytes(da, db) == 0 {
                lemma_cmp_bytes_zero(da, db);
            } else if cmp_bytes(da, db) < 0 {
                lemma_cmp_bytes_lt_be_val(da, db);
            } else {
                lemma_cmp_bytes_antisym(da, db);
                lemma_cmp_bytes_lt_be_val(db, da);
            }
        }
        if c <= 0 {
            Self::new_internal(self, node)
        } else {
            proof {
                lemma_combined_commutative(node.digest(), self.digest());
            }
            Self::new_internal(node, self)
        }
    }

    /// Whether this node is a leaf.
    fn _is_leaf(&self) -> (r: bool)
        ensures
            r == (self is Leaf),
    {
        matches!(self, Node::Leaf { .. })
    }

    fn advance(&self, side: Side) -> (r: Option<&Self>)
        ensures
            (r is Some) == (self is Internal),
            (r matches Some(n) ==> *n == (match side {
                Side::Left => self.left_spec(),
                Side::Right => self.right_spec(),
            })),
    {
        match self {
            Node::Leaf { .. } => None,
            Node::Internal { hash: _, left: l, right: r2 } => match side {
                Side::Left => Some(&**l),
                Side::Right => Some(&**r2),
            },
        }
    }

    fn left(&self) -> (r: Option<&Self>)
        ensures
            (r is Some) == (self is Internal),
            (r matches Some(n) ==> *n == self.left_spec()),
    {
        self.advance(Side::Left)
    }

    /// Builds the tree over `blocks`: each block becomes a leaf, then the
    /// queue of nodes is reduced front-to-back, joining two nodes at a time
    /// and enqueueing the parent at the back, until one root remains. The
    /// power-of-two count keeps every pairing between nodes of equal depth,
    /// so the result is perfect.
    #[verifier::loop_isolation(false)]
    #[verifier::rlimit(50)]
    pub fn from(blocks: Vec<Vec<u8>>) -> (r: Self)
        requires
            blocks@.len() >= 2,
            is_pow2(blocks@.len() as int),
        ensures
            r.wf(),
            r.perfect(),
            r.digest() == merkle_root(block_views(blocks@)),
            r.depth() == lg(blocks@.len()) + 1,
            covers(r, block_views(blocks@), 0, blocks@.len()),
            r.leaf_blocks().to_multiset() == block_views(blocks@).to_multiset(),
    {
        proof {
            is_pow2_equiv(blocks@.len() as int);
        }
        let ghost m: nat = choose|e: nat| pow(2, e) == blocks@.len() as int;
        proof {
            lemma_pow2(m);
            assert(pow2(m) == blocks@.len());
            lemma_lg_pow2(m);
        }
        let ghost bv = block_views(blocks@);
        let ghost target = reduce(leaf_digests(bv));
        let mut b: Vec<Node> = Vec::new();
        let mut i: usize = 0;
        while i < blocks.len()
            invariant
                i <= blocks@.len(),
                b@.len() == i,
                forall|k: int|
                    #![trigger b@[k]]
                    0 <= k < i ==> b@[k].wf() && b@[k].perfect() && b@[k].depth() == 1
                        && b@[k].digest() == blake2b512_of(bv[k]) && (b@[k] matches Node::Leaf {
                        hash: _,
                        block,
                    } && block@ == bv[k]),
            decreases blocks@.len() - i,
        {
            let leaf = Node::new_leaf(copy_bytes(&blocks[i]));
            b.push(leaf);
            i = i + 1;
        }
        proof {
            assert(digests_of(b@) =~= leaf_digests(bv));
            lemma2_to64();
            if m == 0 {
                assert(false);
            }
            lemma_pow2_unfold(m);
        }
        let ghost mut d: nat = 1;
        let ghost mut j: int = b@.len() as int;
        let ghost mut split: int = 0;
        proof {
            assert(j * pow2((d - 1) as nat) == j) by (nonlinear_arith)
                requires
                    pow2((d - 1) as nat) == 1,
            ;
            assert((b@.len() as int - j) * pow2(d) == 0) by (nonlinear_arith)
                requires
                    b@.len() as int == j,
            ;
            lemma_leaves_cover(b@, bv, 0);
            assert(b@.subrange(0, j) =~= b@);
            assert(b@.subrange(j, b@.len() as int) =~= Seq::<Node>::empty());
        }
        while b.len() > 1
            invariant
                1 <= b@.len(),
                reduce(digests_of(b@)) == target,
                0 <= j <= b@.len(),
                j % 2 == 0,
                d >= 1,
                forall|k: int|
                    #![trigger b@[k]]
                    0 <= k < j ==> b@[k].wf() && b@[k].perfect() && b@[k].depth() == d,
                forall|k: int|
                    #![trigger b@[k]]
                    j <= k < b@.len() ==> b@[k].wf() && b@[k].perfect() && b@[k].depth() == d + 1,
                j * pow2((d - 1) as nat) + (b@.len() as int - j) * pow2(d) == pow2(m),
                covers_consecutive(b@.subrange(0, j), bv, split, pow2((d - 1) as nat)),
                covers_consecutive(b@.subrange(j, b@.len() as int), bv, 0, pow2(d)),
                split == (b@.len() as int - j) * pow2(d),
            decreases b@.len(),
        {
            proof {
                if j == 0 {
                    assert(b@.len() as int * pow2(d) == pow2(m)) by (nonlinear_arith)
                        requires
                            j == 0,
                            j * pow2((d - 1) as nat) + (b@.len() as int - j) * pow2(d) == pow2(
                                m,
                            ),
                    ;
                    lemma_cancel_pow2(b@.len() as int, d, m);
                    lemma_pow2_unfold((m - d) as nat);
                    d = d + 1;
                    j = b@.len() as int;
                    split = 0;
                    assert((b@.len() as int - j) * pow2(d) == 0) by (nonlinear_arith)
                        requires
                            b@.len() as int == j,
                    ;
                    assert(b@.subrange(j, b@.len() as int) =~= Seq::<Node>::empty());
                }
                assert(j >= 2);
                assert(j * pow2((d - 1) as nat) + (b@.len() as int - j) * pow2(d) == pow2(m));
                assert(covers_consecutive(b@.subrange(0, j), bv, split, pow2((d - 1) as nat)));
                assert(covers_consecutive(b@.subrange(j, b@.len() as int), bv, 0, pow2(d)));
                assert(split == (b@.len() as int - j) * pow2(d));
            }
            let ghost prev = b@;
            let n1 = b.remove(0);
            let n2 = b.remove(0);
            let n = n1.join(n2);
            b.push(n);
            proof {
                assert(b@ =~= prev.skip(2).push(n));
                assert(digests_of(b@) =~= digests_of(prev).skip(2).push(
                    join_digest(digests_of(prev)[0], digests_of(prev)[1]),
                ));
                assert(reduce(digests_of(prev)) == reduce(digests_of(b@)));
                let pd1: int = pow2((d - 1) as nat) as int;
                let pd: int = pow2(d) as int;
                lemma_pow2_unfold(d);
                assert((j - 2) * pd1 == j * pd1 - 2 * pd1) by (nonlinear_arith);
                assert((b@.len() as int - (j - 2)) * pd == (prev.len() as int - j) * pd + pd)
                    by (nonlinear_arith)
                    requires
                        b@.len() as int == prev.len() as int - 1,
                ;
                let ps = prev.subrange(0, j);
                assert(n1 == prev[0] && n2 == prev[1]);
                assert(ps[0] == n1);
                assert(ps.skip(1)[0] == n2);
                assert(covers_consecutive(ps, bv, split, pow2((d - 1) as nat)));
                assert(covers(n1, bv, split, pow2((d - 1) as nat)));
                assert(covers_consecutive(ps.skip(1), bv, split + pd1, pow2((d - 1) as nat)));
                assert(covers(n2, bv, split + pd1, pow2((d - 1) as nat)));
                assert(covers_consecutive(
                    ps.skip(1).skip(1),
                    bv,
                    split + 2 * pd1,
                    pow2((d - 1) as nat),
                ));
                lemma_fundamental_div_mod_converse_div(pd, 2, pd1, 0);
                assert(covers(n, bv, split, pow2(d)));
                let suf = prev.subrange(j, prev.len() as int);
                assert(suf.len() == prev.len() - j);
                assert(suf.len() * pow2(d) == split);
                lemma_covers_push(suf, bv, 0, pow2(d), n);
                assert(suf.push(n) =~= b@.subrange(j - 2, b@.len() as int));
                assert(ps.skip(1).skip(1) =~= b@.subrange(0, j - 2));
                split = split + pd;
                j = j - 2;
                assert(covers_consecutive(b@.subrange(0, j), bv, split, pow2((d - 1) as nat)));
                assert(covers_consecutive(b@.subrange(j, b@.len() as int), bv, 0, pow2(d)));
            }
        }
        proof {
            assert(j == 0);
            assert(b@[0].depth() == d + 1);
            assert(j * pow2((d - 1) as nat) == 0) by (nonlinear_arith)
                requires
                    j == 0,
            ;
            assert((b@.len() as int - j) * pow2(d) == pow2(d)) by (nonlinear_arith)
                requires
                    b@.len() as int == 1,
                    j == 0,
            ;
            assert(1 * pow2(d) == pow2(m));
            lemma_pow2_injective(d, m);
            assert(reduce(digests_of(b@)) == digests_of(b@)[0]);
            assert(b@.subrange(0, b@.len() as int) =~= b@);
            assert(covers(b@[0], bv, 0, pow2(d)));
            assert(covers(b@[0], bv, 0, blocks@.len()));
            lemma_covers_multiset(b@[0], bv, 0, blocks@.len());
            assert(bv.subrange(0, blocks@.len() as int) =~= bv);
        }
        b.remove(0)
    }

    /// The length of the leftmost path: the tree's height. On the perfect
    /// trees the builder produces, every root-to-leaf path has this length.
    pub fn height(&self) -> (h: usize)
        requires
            self.depth() <= usize::MAX,
        ensures
            h == self.depth(),
        decreases self,
    {
        match self.left() {
            Some(n) => n.height() + 1,
            None => 1,
        }
    }
}

enum Side {
    Left,
    Right,
}

/// Two nodes that agree byte for byte: same digest, same kind, same block
/// bytes, children alike in turn. Such nodes carry the same commitment and
/// are interchangeable in every contract of this library.
pub open spec fn similar(a: Node, b: Node) -> bool
    decreases a,
{
    match (a, b) {
        (Node::Leaf { hash: ha, block: ba }, Node::Leaf { hash: hb, block: bb }) => ha@ == hb@
            && ba@ == bb@,
        (
            Node::Internal { hash: ha, left: la, right: ra },
            Node::Internal { hash: hb, left: lb, right: rb },
        ) => ha@ == hb@ && similar(*la, *lb) && similar(*ra, *rb),
        _ => false,
    }
}

/// The sibling order, three-way: digest bytes decide first, most significant
/// byte foremost; only on equal digests does the node's own data break the
/// tie — a leaf sorts before an internal node, two leaves go by their block
/// bytes, two internal nodes by their left, then right, children. Total over
/// the node's byte-level representation: it ties only on nodes that are
/// `similar`.
pub open spec fn cmp_node(a: Node, b: Node) -> int
    decreases a,
{
    if cmp_bytes(a.digest(), b.digest()) != 0 {
        cmp_bytes(a.digest(), b.digest())
    } else {
        match (a, b) {
            (Node::Leaf { hash: _, block: ba }, Node::Leaf { hash: _, block: bb }) => cmp_bytes(
                ba@,
                bb@,
            ),
            (Node::Leaf { .. }, Node::Internal { .. }) => -1,
            (Node::Internal { .. }, Node::Leaf { .. }) => 1,
            (
                Node::Internal { hash: _, left: la, right: ra },
                Node::Internal { hash: _, left: lb, right: rb },
            ) => {
                if cmp_node(*la, *lb) != 0 {
                    cmp_node(*la, *lb)
                } else {
                    cmp_node(*ra, *rb)
                }
            },
        }
    }
}

/// Of two nodes, the one the sibling order places on the left.
pub open spec fn left_of(a: Node, b: Node) -> Node {
    if cmp_node(a, b) <= 0 {
        a
    } else {
        b
    }
}

/// Of two nodes, the one the sibling order places on the right.
pub open spec fn right_of(a: Node, b: Node) -> Node {
    if cmp_node(a, b) <= 0 {
        b
    } else {
        a
    }
}

proof fn lemma_cmp_node_antisym(a: Node, b: Node)
    ensures
        cmp_node(b, a) == -cmp_node(a, b),
    decreases a,
{
    lemma_cmp_bytes_antisym(a.digest(), b.digest());
    if cmp_bytes(a.digest(), b.digest()) == 0 {
        match (a, b) {
            (Node::Leaf { hash: _, block: ba }, Node::Leaf { hash: _, block: bb }) => {
                lemma_cmp_bytes_antisym(ba@, bb@);
            },
            (
                Node::Internal { hash: _, left: la, right: ra },
                Node::Internal { hash: _, left: lb, right: rb },
            ) => {
                lemma_cmp_node_antisym(*la, *lb);
                lemma_cmp_node_antisym(*ra, *rb);
            },
            _ => {},
        }
    }
}

/// The sibling order ties only on byte-for-byte alike nodes.
proof fn lemma_cmp_node_zero(a: Node, b: Node)
    requires
        cmp_node(a, b) == 0,
    ensures
        similar(a, b),
    decreases a,
{
    lemma_cmp_bytes_zero(a.digest(), b.digest());
    match (a, b) {
        (Node::Leaf { hash: _, block: ba }, Node::Leaf { hash: _, block: bb }) => {
            lemma_cmp_bytes_zero(ba@, bb@);
        },
        (
            Node::Internal { hash: _, left: la, right: ra },
            Node::Internal { hash: _, left: lb, right: rb },
        ) => {
            lemma_cmp_node_zero(*la, *lb);
            lemma_cmp_node_zero(*ra, *rb);
        },
        _ => {},
    }
}

/// Sibling placement does not depend on the order the two nodes arrive in:
/// when the order separates them, the same node goes left either way; when
/// it ties, the two are byte-for-byte alike, so either placement yields the
/// same commitment.
pub proof fn lemma_sibling_order_symmetric(a: Node, b: Node)
    ensures
        cmp_node(a, b) != 0 ==> left_of(a, b) == left_of(b, a) && right_of(a, b) == right_of(
            b,
            a,
        ),
        cmp_node(a, b) == 0 ==> similar(a, b) && similar(left_of(a, b), left_of(b, a)) && similar(
            right_of(a, b),
            right_of(b, a),
        ),
{
    lemma_cmp_node_antisym(a, b);
    if cmp_node(a, b) == 0 {
        lemma_cmp_node_zero(a, b);
        lemma_cmp_node_zero(b, a);
    }
}

fn cmp_node_exec(a: &Node, b: &Node) -> (r: i8)
    ensures
        r as int == cmp_node(*a, *b),
    decreases *a,
{
    let c = cmp_bytes_exec(a.digest_ref(), b.digest_ref());
    if c != 0 {
        return c;
    }
    match (a, b) {
        (Node::Leaf { hash: _, block: ba }, Node::Leaf { hash: _, block: bb }) => cmp_bytes_exec(
            ba,
            bb,
        ),
        (Node::Leaf { .. }, Node::Internal { .. }) => -1,
        (Node::Internal { .. }, Node::Leaf { .. }) => 1,
        (
            Node::Internal { hash: _, left: la, right: ra },
            Node::Internal { hash: _, left: lb, right: rb },
        ) => {
            let cl = cmp_node_exec(la, lb);
            if cl != 0 {
                cl
            } else {
                cmp_node_exec(ra, rb)
            }
        },
    }
}

/// `n` commits to exactly the `width` blocks starting at `lo`: a leaf holds
/// that one block; an internal node's children cover the two halves of the
/// range, one each, in one order or the other (the sibling order, not the
/// block order, decides which half sits left).
pub open spec fn covers(n: Node, blocks: Seq<Seq<u8>>, lo: int, width: nat) -> bool
    decreases width,
{
    if width <= 1 {
        (n matches Node::Leaf { hash: _, block } && block@ == blocks[lo])
    } else {
        let half = (width / 2) as nat;
        (n matches Node::Internal { hash: _, left, right } && ((covers(*left, blocks, lo, half)
            && covers(*right, blocks, lo + half, half)) || (covers(
            *left,
            blocks,
            lo + half,
            half,
        ) && covers(*right, blocks, lo, half))))
    }
}

/// Consecutive nodes cover consecutive width-`w` block ranges from `lo` on.
pub open spec fn covers_consecutive(ns: Seq<Node>, blocks: Seq<Seq<u8>>, lo: int, w: nat) -> bool
    decreases ns.len(),
{
    ns.len() == 0 || (covers(ns[0], blocks, lo, w) && covers_consecutive(
        ns.skip(1),
        blocks,
        lo + w,
        w,
    ))
}

proof fn lemma_covers_push(ns: Seq<Node>, blocks: Seq<Seq<u8>>, lo: int, w: nat, x: Node)
    requires
        covers_consecutive(ns, blocks, lo, w),
        covers(x, blocks, lo + ns.len() * w, w),
    ensures
        covers_consecutive(ns.push(x), blocks, lo, w),
    decreases ns.len(),
{
    if ns.len() == 0 {
        assert(ns.len() * w == 0) by (nonlinear_arith)
            requires
                ns.len() == 0,
        ;
        assert(ns.push(x)[0] == x);
        assert(ns.push(x).skip(1) =~= Seq::<Node>::empty());
        assert(covers_consecutive(ns.push(x).skip(1), blocks, lo + w, w));
    } else {
        assert(lo + w + ns.skip(1).len() * w == lo + ns.len() * w) by (nonlinear_arith)
            requires
                ns.skip(1).len() == ns.len() - 1,
        ;
        lemma_covers_push(ns.skip(1), blocks, lo + w, w, x);
        assert(ns.push(x).skip(1) =~= ns.skip(1).push(x));
        assert(ns.push(x)[0] == ns[0]);
    }
}

/// A row of leaves holding `blocks[lo..]` in order covers unit ranges.
proof fn lemma_leaves_cover(ns: Seq<Node>, blocks: Seq<Seq<u8>>, lo: int)
    requires
        forall|k: int|
            #![trigger ns[k]]
            0 <= k < ns.len() ==> (ns[k] matches Node::Leaf { hash: _, block } && block@
                == blocks[lo + k]),
    ensures
        covers_consecutive(ns, blocks, lo, 1),
    decreases ns.len(),
{
    if ns.len() > 0 {
        assert(forall|k: int|
            #![trigger ns.skip(1)[k]]
            0 <= k < ns.skip(1).len() ==> ns.skip(1)[k] == ns[k + 1]);
        lemma_leaves_cover(ns.skip(1), blocks, lo + 1);
    }
}

/// What a node covers, it owns: the leaf blocks under `n` are exactly the
/// covered block range, as a multiset (children may sit in either order, so
/// the sequence order can differ).
pub proof fn lemma_covers_multiset(n: Node, blocks: Seq<Seq<u8>>, lo: int, width: nat)
    requires
        covers(n, blocks, lo, width),
        is_pow2(width as int),
        0 <= lo,
        lo + width <= blocks.len(),
    ensures
        n.leaf_blocks().to_multiset() == blocks.subrange(lo, lo + width).to_multiset(),
    decreases width,
{
    reveal(vstd::arithmetic::power2::is_pow2);
    if width <= 1 {
        assert(n.leaf_blocks() =~= seq![blocks[lo]]);
        assert(blocks.subrange(lo, lo + 1) =~= seq![blocks[lo]]);
    } else {
        let half = (width / 2) as nat;
        assert(width == 2 * half);
        let low = blocks.subrange(lo, lo + half);
        let high = blocks.subrange(lo + half, lo + width);
        assert(blocks.subrange(lo, lo + width) =~= low + high);
        vstd::seq_lib::lemma_multiset_commutative(low, high);
        match n {
            Node::Internal { hash: _, left, right } => {
                if covers(*left, blocks, lo, half) && covers(*right, blocks, lo + half, half) {
                    lemma_covers_multiset(*left, blocks, lo, half);
                    lemma_covers_multiset(*right, blocks, lo + half, half);
                    vstd::seq_lib::lemma_multiset_commutative(
                        (*left).leaf_blocks(),
                        (*right).leaf_blocks(),
                    );
                } else {
                    lemma_covers_multiset(*left, blocks, lo + half, half);
                    lemma_covers_multiset(*right, blocks, lo, half);
                    vstd::seq_lib::lemma_multiset_commutative(
                        (*left).leaf_blocks(),
                        (*right).leaf_blocks(),
                    );
                    assert(low.to_multiset().add(high.to_multiset()) =~= high.to_multiset().add(
                        low.to_multiset(),
                    ));
                }
            },
            Node::Leaf { .. } => {},
        }
    }
}

proof fn lemma_pow2_injective(e1: nat, e2: nat)
    requires
        pow2(e1) == pow2(e2),
    ensures
        e1 == e2,
{
    if e1 < e2 {
        lemma_pow2_strictly_increases(e1, e2);
    }
    if e2 < e1 {
        lemma_pow2_strictly_increases(e2, e1);
    }
}

/// If `x` copies of 2^d make up 2^m and `x` is at least 2, then `x` is the
/// power of two that bridges the exponents.
proof fn lemma_cancel_pow2(x: int, d: nat, m: nat)
    requires
        x >= 2,
        x * pow2(d) == pow2(m),
    ensures
        m >= d + 1,
        x == pow2((m - d) as nat),
{
    lemma_pow2_pos(d);
    lemma_pow2_pos(m);
    assert(x * pow2(d) >= 2 * pow2(d)) by (nonlinear_arith)
        requires
            x >= 2,
            pow2(d) >= 1,
    ;
    if m < d + 1 {
        if m < d {
            lemma_pow2_strictly_increases(m, d);
        }
        assert(false);
    }
    lemma_pow2_adds((m - d) as nat, d);
    assert(x == pow2((m - d) as nat)) by (nonlinear_arith)
        requires
            x * pow2(d) == pow2((m - d) as nat) * pow2(d),
            pow2(d) >= 1,
    ;
}

proof fn lemma_lg_pow2(m: nat)
    ensures
        lg(pow2(m)) == m,
    decreases m,
{
    lemma2_to64();
    if m > 0 {
        lemma_pow2_unfold(m);
        lemma_pow2_pos((m - 1) as nat);
        lemma_fundamental_div_mod_converse_div(
            pow2(m) as int,
            2,
            pow2((m - 1) as nat) as int,
            0,
        );
        lemma_lg_pow2((m - 1) as nat);
    }
}

/// A byte-for-byte copy of `v`.
fn copy_bytes(v: &Vec<u8>) -> (r: Vec<u8>)
    ensures
        r@ == v@,
{
    let mut r: Vec<u8> = Vec::new();
    let mut i: usize = 0;
    while i < v.len()
        invariant
            i <= v@.len(),
            r@ == v@.subrange(0, i as int),
        decreases v@.len() - i,
    {
        r.push(v[i]);
        proof {
            assert(r@ =~= v@.subrange(0, i + 1));
        }
        i = i + 1;
    }
    proof {
        assert(v@.subrange(0, v@.len() as int) =~= v@);
    }
    r
}

/// Three-way lexicographic comparison of byte strings: the most significant
/// differing byte decides; a proper prefix sorts first.
pub open spec fn cmp_bytes(a: Seq<u8>, b: Seq<u8>) -> int
    decreases a.len(),
{
    if a.len() == 0 && b.len() == 0 {
        0
    } else if a.len() == 0 {
        -1
    } else if b.len() == 0 {
        1
    } else if a[0] < b[0] {
        -1
    } else if b[0] < a[0] {
        1
    } else {
        cmp_bytes(a.skip(1), b.skip(1))
    }
}

proof fn lemma_cmp_bytes_antisym(a: Seq<u8>, b: Seq<u8>)
    ensures
        cmp_bytes(b, a) == -cmp_bytes(a, b),
    decreases a.len(),
{
    if a.len() > 0 && b.len() > 0 && a[0] == b[0] {
        lemma_cmp_bytes_antisym(a.skip(1), b.skip(1));
    }
}

/// The comparison ties only on identical strings.
proof fn lemma_cmp_bytes_zero(a: Seq<u8>, b: Seq<u8>)
    requires
        cmp_bytes(a, b) == 0,
    ensures
        a == b,
    decreases a.len(),
{
    if a.len() == 0 && b.len() == 0 {
        assert(a =~= b);
    } else {
        lemma_cmp_bytes_zero(a.skip(1), b.skip(1));
        assert(a =~= seq![a[0]] + a.skip(1));
        assert(b =~= seq![b[0]] + b.skip(1));
    }
}

/// On equally long strings the lexicographic order is the order of the
/// denoted big-endian integers.
proof fn lemma_cmp_bytes_lt_be_val(a: Seq<u8>, b: Seq<u8>)
    requires
        a.len() == b.len(),
        cmp_bytes(a, b) < 0,
    ensures
        be_val(a) < be_val(b),
    decreases a.len(),
{
    if a[0] < b[0] {
        crate::utils::lemma_be_val_prefix_lt(a, b, 0);
    } else {
        crate::utils::lemma_be_val_front(a);
        crate::utils::lemma_be_val_front(b);
        lemma_cmp_bytes_lt_be_val(a.skip(1), b.skip(1));
    }
}

fn cmp_bytes_exec(x: &Vec<u8>, y: &Vec<u8>) -> (r: i8)
    ensures
        r as int == cmp_bytes(x@, y@),
{
    let mut i: usize = 0;
    proof {
        assert(x@.skip(0) =~= x@);
        assert(y@.skip(0) =~= y@);
    }
    while i < x.len() && i < y.len()
        invariant
            i <= x@.len(),
            i <= y@.len(),
            cmp_bytes(x@, y@) == cmp_bytes(x@.skip(i as int), y@.skip(i as int)),
        decreases x@.len() - i,
    {
        if x[i] < y[i] {
            return -1;
        }
        if y[i] < x[i] {
            return 1;
        }
        proof {
            assert(x@.skip(i as int).skip(1) =~= x@.skip(i + 1));
            assert(y@.skip(i as int).skip(1) =~= y@.skip(i + 1));
        }
        i = i + 1;
    }
    if x.len() < y.len() {
        -1
    } else if y.len() < x.len() {
        1
    } else {
        0
    }
}

} // verus!
