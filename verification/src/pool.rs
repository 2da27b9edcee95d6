//! The tunnel address pool: candidate addresses and the allocator that
//! returns the lowest free one.

use vstd::prelude::*;
use crate::GatewayError;
use crate::text::{decimal_of, str_eq, u64_to_string, views_of};

verus! {

/// Host identifiers eligible for peers: the gateway itself keeps host 1.
pub open spec fn pool_host_min() -> int {
    2
}

/// One past the highest eligible host identifier.
pub open spec fn pool_host_end() -> int {
    255
}

/// The textual pool address with host identifier `k`.
pub open spec fn pool_addr(k: int) -> Seq<char> {
    "10.200.200."@ + decimal_of(k as nat)
}

/// Build the textual pool address for host `k`.
pub fn pool_addr_string(k: u64) -> (r: String)
    ensures
        r@ == pool_addr(k as int),
{
    let base = "10.200.200.".to_owned();
    base.concat(u64_to_string(k).as_str())
}

/// Host `k` is taken: some occupied address is exactly its text.
pub open spec fn addr_taken(occupied: Seq<Seq<char>>, k: int) -> bool {
    exists|i: int| 0 <= i < occupied.len() && occupied[i] == pool_addr(k)
}

/// Scan the pool low to high and return the first address that no existing
/// record occupies; fail when all 253 candidates are taken.
pub fn allocate(occupied: &Vec<String>) -> (r: Result<String, GatewayError>)
    ensures
        match r {
            Ok(a) => exists|k: int|
                pool_host_min() <= k < pool_host_end() && a@ == pool_addr(k) && !addr_taken(
                    views_of(occupied@),
                    k,
                ) && (forall|k2: int|
                    pool_host_min() <= k2 < k ==> addr_taken(views_of(occupied@), k2)),
            Err(e) => e == GatewayError::AllocationExhausted && (forall|k: int|
                pool_host_min() <= k < pool_host_end() ==> addr_taken(views_of(occupied@), k)),
        },
{
    let mut k: u64 = 2;
    while k < 255
        invariant
            2 <= k <= 255,
            forall|k2: int| 2 <= k2 < k ==> addr_taken(views_of(occupied@), k2),
        decreases 255 - k,
    {
        let candidate = pool_addr_string(k);
        let mut taken = false;
        let mut i: usize = 0;
        while i < occupied.len()
            invariant
                0 <= i <= occupied.len(),
                candidate@ == pool_addr(k as int),
                taken ==> addr_taken(views_of(occupied@), k as int),
                !taken ==> forall|j: int| 0 <= j < i ==> views_of(occupied@)[j] != pool_addr(
                    k as int,
                ),
            decreases occupied.len() - i,
        {
            if str_eq(occupied[i].as_str(), candidate.as_str()) {
                proof {
                    assert(views_of(occupied@)[i as int] == pool_addr(k as int));
                }
                taken = true;
            }
            i += 1;
        }
        if !taken {
            return Ok(candidate);
        }
        k += 1;
    }
    Err(GatewayError::AllocationExhausted)
}

} // verus!
