//! Host enumeration: the ordered sequence of usable host addresses of a
//! subnet, excluding the network address and the broadcast address.

use vstd::prelude::*;
use vstd::arithmetic::power2::{pow2, lemma_pow2_strictly_increases, lemma2_to64};
use vstd::bits::lemma_u64_shl_is_mul;
use crate::subnet::{Subnet, mask_of_prefix};

verus! {

/// How many usable host addresses a block with prefix length `p` has:
/// the block size minus the network and broadcast addresses, and zero
/// for the two block sizes too small to hold both.
pub open spec fn host_count_spec(p: u8) -> int
    recommends
        p <= 32,
{
    if p >= 31 {
        0
    } else {
        pow2((32 - p) as nat) - 2
    }
}

/// Law: the number of usable hosts equals `max(2^(32 - p) - 2, 0)`.
pub proof fn lemma_host_count_formula(prefix: u8)
    requires
        prefix <= 32,
    ensures
        host_count_spec(prefix) == vstd::math::max(pow2((32 - prefix) as nat) - 2, 0),
{
    lemma2_to64();
    if prefix <= 30 {
        lemma_pow2_strictly_increases(1, (32 - prefix) as nat);
    }
}

/// A block never has a negative number of usable hosts.
pub proof fn lemma_host_count_nonneg(prefix: u8)
    requires
        prefix <= 32,
    ensures
        host_count_spec(prefix) >= 0,
{
    lemma2_to64();
    if prefix <= 30 {
        lemma_pow2_strictly_increases(1, (32 - prefix) as nat);
    }
}

proof fn lemma_shift_is_pow2(k: u64)
    requires
        2 <= k <= 32,
    ensures
        (1u64 << k) == pow2(k as nat),
        4 <= pow2(k as nat) <= 0x1_0000_0000,
{
    lemma2_to64();
    if k < 32 {
        lemma_pow2_strictly_increases(k as nat, 32);
    }
    if k > 2 {
        lemma_pow2_strictly_increases(2, k as nat);
    }
    lemma_u64_shl_is_mul(1u64, k);
}

/// The number of usable host addresses of `s`.
pub fn host_count(s: &Subnet) -> (n: u32)
    requires
        s.prefix <= 32,
    ensures
        n == host_count_spec(s.prefix),
{
    if s.prefix >= 31 {
        0
    } else {
        proof {
            lemma_shift_is_pow2((32 - s.prefix) as u64);
        }
        ((1u64 << ((32 - s.prefix) as u64)) - 2) as u32
    }
}

/// The `i`-th usable host address of `s`, in ascending order: the
/// network address plus `i + 1`.
pub fn host_at(s: &Subnet, i: u32) -> (r: u32)
    requires
        s.wf(),
        i < host_count_spec(s.prefix),
    ensures
        r == s.network + 1 + i,
{
    proof {
        lemma_shift_is_pow2((32 - s.prefix) as u64);
        let p = s.prefix;
        let net = s.network;
        assert((net as u64) + 1 + (i as u64) <= 0xFFFF_FFFFu64) by (bit_vector)
            requires
                p <= 30,
                net & mask_of_prefix(p) == net,
                (i as u64) < (1u64 << ((32 - p) as u64)) - 2,
        ;
    }
    s.network + 1 + i
}

/// All usable host addresses of `s`, ascending, with the network and
/// broadcast addresses left out.  A prefix of 31 or 32 yields an empty
/// vector.
pub fn enumerate_hosts(s: &Subnet) -> (hosts: Vec<u32>)
    requires
        s.wf(),
    ensures
        hosts@.len() == host_count_spec(s.prefix),
        forall|k: int| 0 <= k < hosts@.len() ==> hosts@[k] == s.network + 1 + k,
        forall|k1: int, k2: int|
            0 <= k1 < k2 < hosts@.len() ==> hosts@[k1] < hosts@[k2],
{
    let n = host_count(s);
    let mut hosts: Vec<u32> = Vec::new();
    let mut i: u32 = 0;
    while i < n
        invariant
            s.wf(),
            n == host_count_spec(s.prefix),
            i <= n,
            hosts@.len() == i,
            forall|k: int| 0 <= k < hosts@.len() ==> hosts@[k] == s.network + 1 + k,
        decreases n - i,
    {
        let a = host_at(s, i);
        hosts.push(a);
        i = i + 1;
    }
    hosts
}

} // verus!
