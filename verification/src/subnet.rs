//! Subnet computation: building a network mask from a prefix length and
//! masking an address down to its network address.

use vstd::prelude::*;
use vstd::arithmetic::power2::{pow2, lemma_pow2_adds, lemma_pow2_strictly_increases, lemma2_to64};
use vstd::bits::lemma_u32_shl_is_mul;

verus! {

/// The 32-bit mask whose top `p` bits are set.  A prefix of 0 gives the
/// all-zero mask, so that no shift by 32 is ever taken.
pub open spec fn mask_of_prefix(p: u8) -> u32
    recommends
        p <= 32,
{
    if p == 0 {
        0u32
    } else {
        0xFFFF_FFFFu32 << ((32 - p) as u32)
    }
}

/// An IPv4 subnet: its network address and its prefix length.
/// `network` always has every bit below the host boundary clear.
pub struct Subnet {
    pub network: u32,
    pub prefix: u8,
}

impl Subnet {
    /// Well-formedness: the prefix is a legal length and the network
    /// address carries no host bits.
    pub open spec fn wf(self) -> bool {
        &&& self.prefix <= 32
        &&& self.network & mask_of_prefix(self.prefix) == self.network
    }
}

/// Mask `address` down to the network address of its block.
pub fn compute_subnet(address: u32, prefix: u8) -> (r: Subnet)
    requires
        prefix <= 32,
    ensures
        r.prefix == prefix,
        r.network == address & mask_of_prefix(prefix),
        r.wf(),
{
    let mask: u32 = if prefix == 0 {
        0
    } else {
        0xFFFF_FFFFu32 << ((32 - prefix) as u32)
    };
    let network = address & mask;
    proof {
        assert((address & mask_of_prefix(prefix)) & mask_of_prefix(prefix) == address
            & mask_of_prefix(prefix)) by (bit_vector);
    }
    Subnet { network, prefix }
}

/// Law: every bit of a computed network address below the host boundary is
/// zero.  Bit `i` (counted from the least significant end) lies beyond a
/// prefix of length `p` exactly when `i < 32 - p`.
pub proof fn lemma_network_host_bits_zero(address: u32, prefix: u8)
    requires
        prefix <= 32,
    ensures
        forall|i: u8|
            i < 32 - prefix ==> ((address & mask_of_prefix(prefix)) >> i) & 1u32 == 0u32,
{
    assert(forall|i: u8|
        i < 32 - prefix ==> ((address & mask_of_prefix(prefix)) >> i) & 1u32 == 0u32)
        by (bit_vector)
        requires
            prefix <= 32,
    ;
}

/// The number of set bits of `m`.
pub open spec fn popcount(m: u32) -> int
    decreases m,
{
    if m == 0 {
        0
    } else {
        (m % 2) as int + popcount(m / 2)
    }
}

/// A block of `p` ones at the bottom has `p` set bits.
proof fn lemma_popcount_ones(p: nat)
    requires
        p <= 32,
    ensures
        pow2(p) >= 1,
        pow2(p) - 1 <= u32::MAX,
        popcount((pow2(p) - 1) as u32) == p,
    decreases p,
{
    lemma2_to64();
    if p < 32 {
        lemma_pow2_strictly_increases(p, 32);
    }
    if p > 0 {
        lemma_popcount_ones((p - 1) as nat);
        assert(pow2(p) == 2 * pow2((p - 1) as nat)) by {
            lemma_pow2_adds(1, (p - 1) as nat);
        }
        let m = (pow2(p) - 1) as u32;
        assert(m % 2 == 1);
        assert(m / 2 == pow2((p - 1) as nat) - 1);
        assert(popcount(m) == 1 + popcount((pow2((p - 1) as nat) - 1) as u32));
    }
}

/// Trailing zeros do not change the number of set bits.
proof fn lemma_popcount_shift(m: u32, j: nat)
    requires
        j <= 32,
        m * pow2(j) <= u32::MAX,
    ensures
        popcount((m * pow2(j)) as u32) == popcount(m),
    decreases j,
{
    lemma2_to64();
    if j > 0 {
        assert(pow2(j) == 2 * pow2((j - 1) as nat)) by {
            lemma_pow2_adds(1, (j - 1) as nat);
        }
        assert(m * pow2(j) == 2 * (m * pow2((j - 1) as nat))) by (nonlinear_arith)
            requires
                pow2(j) == 2 * pow2((j - 1) as nat),
        ;
        assert(m * pow2((j - 1) as nat) >= 0) by (nonlinear_arith);
        lemma_popcount_shift(m, (j - 1) as nat);
        let half = m * pow2((j - 1) as nat);
        let v = (m * pow2(j)) as u32;
        assert(v == 2 * half);
        assert(v % 2 == 0);
        assert(v / 2 == half);
        assert((half as u32) == half);
        if v == 0 {
            assert(popcount(v) == 0);
            assert(half == 0);
            assert(popcount(half as u32) == 0);
        } else {
            assert(popcount(v) == (v % 2) as int + popcount(v / 2));
        }
        assert(popcount(v) == popcount(half as u32));
        assert(popcount((m * pow2(j)) as u32) == popcount(m));
    } else {
        assert(pow2(0) == 1);
        assert(m * pow2(j) == m) by (nonlinear_arith)
            requires
                pow2(j) == 1,
        ;
        assert((m * pow2(j)) as u32 == m);
    }
}

/// Law: the mask built for prefix length `p` has exactly `p` set bits,
/// so the prefix a canonical CIDR string reports equals the population
/// count of the mask that was applied.
pub proof fn lemma_mask_popcount(p: u8)
    requires
        p <= 32,
    ensures
        popcount(mask_of_prefix(p)) == p,
{
    lemma2_to64();
    if p == 0 {
        assert(popcount(0u32) == 0);
    } else {
        let s = (32 - p) as u32;
        let mask = mask_of_prefix(p);
        assert((0xFFFF_FFFFu32 << s) as int == 0x1_0000_0000 - ((1u32 << s) as int))
            by (bit_vector)
            requires
                s < 32,
        ;
        lemma_pow2_strictly_increases(s as nat, 32);
        lemma_u32_shl_is_mul(1u32, s);
        assert(mask as int == 0x1_0000_0000 - pow2(s as nat));
        lemma_popcount_ones(p as nat);
        assert(pow2(p as nat) * pow2(s as nat) == pow2(32)) by {
            lemma_pow2_adds(p as nat, s as nat);
        }
        assert((pow2(p as nat) - 1) * pow2(s as nat) == 0x1_0000_0000 - pow2(s as nat))
            by (nonlinear_arith)
            requires
                pow2(p as nat) * pow2(s as nat) == pow2(32),
                pow2(32) == 0x1_0000_0000,
        ;
        lemma_popcount_shift((pow2(p as nat) - 1) as u32, s as nat);
        assert(popcount(mask) == popcount((pow2(p as nat) - 1) as u32));
    }
}


} // verus!
