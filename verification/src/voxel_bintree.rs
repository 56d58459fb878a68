//! One-dimensional analogue of the octree: a binary tree over an integer
//! line, plus bit-spreading helpers for two-way Morton interleaving.

use vstd::prelude::*;
use vstd::arithmetic::power2::pow2;

verus! {

/// One arena slot of the binary tree.
#[derive(Clone, Copy, Debug, PartialEq, Eq)]
pub enum Node {
    Leaf(usize),
    Branch([usize; 2]),
}

/// Child `k`'s arena index (0 = lower half, 1 = upper half), read off the
/// branch node at `i`.
pub open spec fn child1(nodes: Seq<Node>, i: int, k: int) -> int {
    nodes[i]->Branch_0[k] as int
}

/// Well-formedness of the subtree rooted at `i` read to depth `d`: indices
/// in bounds, branches only above depth 0.
pub open spec fn wf_node1(nodes: Seq<Node>, i: int, d: nat) -> bool
    decreases d,
{
    &&& 0 <= i < nodes.len()
    &&& nodes[i] is Branch ==> {
        &&& d > 0
        &&& forall|k: int|
            0 <= k < 2 ==> wf_node1(nodes, #[trigger] child1(nodes, i, k), (d - 1) as nat)
    }
}

/// The value the subtree rooted at `i` holds at local index `x`, reading at
/// most `d` levels down.
pub open spec fn value_at1(nodes: Seq<Node>, i: int, d: nat, x: int) -> usize
    decreases d,
{
    if 0 <= i < nodes.len() {
        if nodes[i] is Leaf {
            nodes[i]->Leaf_0
        } else if d == 0 {
            0
        } else {
            let h = pow2((d - 1) as nat) as int;
            value_at1(
                nodes,
                child1(
                    nodes,
                    i,
                    if x >= h {
                        1int
                    } else {
                        0int
                    },
                ),
                (d - 1) as nat,
                if x >= h {
                    x - h
                } else {
                    x
                },
            )
        }
    } else {
        0
    }
}

/// A binary tree over the integer line, mapping indices to values with the
/// same arena-and-collapse scheme as the octree; absent entries read as 0.
#[derive(Clone, Debug, PartialEq, Eq)]
pub struct VoxelBintree {
    nodes: Vec<Node>,
    free_nodes: Vec<usize>,
    log_size: u32,
}

impl VoxelBintree {
    /// Structural invariant: the root sits at slot 0 and the tree below it
    /// is well formed.
    pub closed spec fn wf(self) -> bool {
        &&& self.log_size <= 63
        &&& self.nodes@.len() >= 1
        &&& wf_node1(self.nodes@, 0, self.log_size as nat)
    }

    /// Side length of the line the tree covers, as the exponent of 2.
    pub closed spec fn size_log(self) -> nat {
        self.log_size as nat
    }

    /// The value held at index `x`; 0 everywhere outside the domain.
    pub closed spec fn at(self, x: int) -> usize {
        if 0 <= x < pow2(self.log_size as nat) {
            value_at1(self.nodes@, 0, self.log_size as nat, x)
        } else {
            0
        }
    }

    /// A fresh line: one zero leaf covering a single index.
    pub fn new() -> (r: VoxelBintree)
        ensures
            r.wf(),
            r.size_log() == 0,
            forall|x: int| r.at(x) == 0,
    {
        let r = VoxelBintree {
            nodes: vec![Node::Leaf(0)],
            free_nodes: Vec::new(),
            log_size: 0,
        };
        proof {
            assert(r.nodes@[0] == Node::Leaf(0usize));
        }
        r
    }

    /// The value at `idx`; indices outside the domain read as 0.
    pub fn get(&self, idx: usize) -> (r: usize)
        requires
            self.wf(),
        ensures
            r == self.at(idx as int),
            idx >= pow2(self.size_log()) ==> r == 0,
    {
        proof {
            vstd::bits::lemma_u64_pow2_no_overflow(self.log_size as nat);
            vstd::bits::lemma_u64_shl_is_mul(1u64, self.log_size as u64);
        }
        let side = 1u64 << (self.log_size as u64);
        if idx as u64 >= side {
            return 0;
        }
        let mut i: usize = 0;
        let mut d = self.log_size;
        let mut lx = idx as u64;
        loop
            invariant
                self.wf(),
                wf_node1(self.nodes@, i as int, d as nat),
                d <= 63,
                lx < pow2(d as nat),
                value_at1(self.nodes@, i as int, d as nat, lx as int) == self.at(idx as int),
            decreases d,
        {
            let node = self.nodes[i];
            match node {
                Node::Leaf(v) => {
                    return v;
                },
                Node::Branch(ch) => {
                    let h = 1u64 << ((d - 1) as u64);
                    proof {
                        vstd::bits::lemma_u64_pow2_no_overflow((d - 1) as nat);
                        vstd::bits::lemma_u64_shl_is_mul(1u64, (d - 1) as u64);
                        vstd::arithmetic::power2::lemma_pow2_unfold(d as nat);
                        assert(child1(self.nodes@, i as int, 0) == ch[0] as int);
                        assert(child1(self.nodes@, i as int, 1) == ch[1] as int);
                    }
                    let k: usize = if lx >= h {
                        lx -= h;
                        1
                    } else {
                        0
                    };
                    i = ch[k];
                    d -= 1;
                },
            }
        }
    }
}

/// The mask-and-shift cascade that spreads the low 32 bits of a word so that
/// bit `i` of the input lands in bit `2*i` of the result.
pub open spec fn spread2(x: u64) -> u64 {
    let a = x & 0x0000_0000_FFFF_FFFF;
    let b = (a | (a << 16)) & 0x0000_FFFF_0000_FFFF;
    let c = (b | (b << 8)) & 0x00FF_00FF_00FF_00FF;
    let d = (c | (c << 4)) & 0x0F0F_0F0F_0F0F_0F0F;
    let e = (d | (d << 2)) & 0x3333_3333_3333_3333;
    (e | (e << 1)) & 0x5555_5555_5555_5555
}

/// The inverse cascade: gathers the even bits of a word into the low half.
pub open spec fn unspread2(x: u64) -> u64 {
    let a = x & 0x5555_5555_5555_5555;
    let b = (a | (a >> 1)) & 0x3333_3333_3333_3333;
    let c = (b | (b >> 2)) & 0x0F0F_0F0F_0F0F_0F0F;
    let d = (c | (c >> 4)) & 0x00FF_00FF_00FF_00FF;
    let e = (d | (d >> 8)) & 0x0000_FFFF_0000_FFFF;
    (e | (e >> 16)) & 0x0000_0000_FFFF_FFFF
}

/// Spreads the low 32 bits of `x` across the even bit positions: bit `i` of
/// the input moves to bit `2*i` of the result; all odd bits are zero.
pub fn expand_bits_2(x: u64) -> (r: u64)
    ensures
        r == spread2(x),
        forall|i: u64| i < 32 ==> #[trigger] ((r >> (2 * i)) & 1) == (x >> i) & 1,
        r & 0xAAAA_AAAA_AAAA_AAAA == 0,
        unspread2(r) == x & 0x0000_0000_FFFF_FFFF,
{
    proof {
        lemma_spread2_round_trip(x);
        lemma_spread2_bits(x);
    }
    let mut v = x & 0x0000_0000_FFFF_FFFF;
    v = (v | (v << 16)) & 0x0000_FFFF_0000_FFFF;
    v = (v | (v << 8)) & 0x00FF_00FF_00FF_00FF;
    v = (v | (v << 4)) & 0x0F0F_0F0F_0F0F_0F0F;
    v = (v | (v << 2)) & 0x3333_3333_3333_3333;
    v = (v | (v << 1)) & 0x5555_5555_5555_5555;
    v
}

/// Gathers the even bits of `x` back into the low 32 bits: bit `2*i` of the
/// input moves to bit `i` of the result.
pub fn shrink_bits_2(x: u64) -> (r: u64)
    ensures
        r == unspread2(x),
        forall|i: u64| i < 32 ==> #[trigger] ((r >> i) & 1) == (x >> (2 * i)) & 1,
        r & 0xFFFF_FFFF_0000_0000 == 0,
{
    proof {
        lemma_unspread2_low(x);
        lemma_unspread2_bits(x);
    }
    let mut v = x & 0x5555_5555_5555_5555;
    v = (v | (v >> 1)) & 0x3333_3333_3333_3333;
    v = (v | (v >> 2)) & 0x0F0F_0F0F_0F0F_0F0F;
    v = (v | (v >> 4)) & 0x00FF_00FF_00FF_00FF;
    v = (v | (v >> 8)) & 0x0000_FFFF_0000_FFFF;
    v = (v | (v >> 16)) & 0x0000_0000_FFFF_FFFF;
    v
}

/// Spreading then gathering gives back the low 32 bits, and a spread word
/// has no odd bits set.
pub proof fn lemma_spread2_round_trip(x: u64)
    ensures
        unspread2(spread2(x)) == x & 0x0000_0000_FFFF_FFFF,
        spread2(x) & 0xAAAA_AAAA_AAAA_AAAA == 0,
{
    assert(unspread2(spread2(x)) == x & 0x0000_0000_FFFF_FFFF) by (bit_vector);
    assert(spread2(x) & 0xAAAA_AAAA_AAAA_AAAA == 0) by (bit_vector);
}

/// Bit for bit, spreading moves bit `i` of the input to bit `2*i`.
pub proof fn lemma_spread2_bits(x: u64)
    by (bit_vector)
    ensures
        forall|i: u64| i < 32 ==> #[trigger] ((spread2(x) >> (2 * i)) & 1) == (x >> i) & 1,
{
}

/// Bit for bit, gathering moves bit `2*i` of the input to bit `i`.
pub proof fn lemma_unspread2_bits(x: u64)
    by (bit_vector)
    ensures
        forall|i: u64| i < 32 ==> #[trigger] ((unspread2(x) >> i) & 1) == (x >> (2 * i)) & 1,
{
}

/// A gathered word fits in 32 bits.
pub proof fn lemma_unspread2_low(x: u64)
    ensures
        unspread2(x) & 0xFFFF_FFFF_0000_0000 == 0,
{
    assert(unspread2(x) & 0xFFFF_FFFF_0000_0000 == 0) by (bit_vector);
}

} // verus!
