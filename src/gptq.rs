//! Index permutations used when repacking quantized weight scales.
use vstd::prelude::*;

verus! {

/// The column offsets within a group of eight for the single-scale
/// permutation.
pub open spec fn single_offset(k: int) -> int {
    if k == 0 { 0 } else if k == 1 { 1 } else if k == 2 { 8 } else if k == 3 { 9 }
    else if k == 4 { 16 } else if k == 5 { 17 } else if k == 6 { 24 } else { 25 }
}

fn single_offset_of(k: u32) -> (r: u32)
    requires
        k < 8,
    ensures
        r == single_offset(k as int),
{
    if k == 0 { 0 } else if k == 1 { 1 } else if k == 2 { 8 } else if k == 3 { 9 }
    else if k == 4 { 16 } else if k == 5 { 17 } else if k == 6 { 24 } else { 25 }
}

/// The scale permutation (an 8 by 8 transpose: position `8 * i + j` holds
/// `i + 8 * j`) and the single-scale permutation (position `8 * i + k`
/// holds `2 * i` plus the `k`-th of 0, 1, 8, 9, 16, 17, 24, 25).
pub fn get_scale_perms() -> (r: (Vec<u32>, Vec<u32>))
    ensures
        r.0@.len() == 64,
        forall|n: int| 0 <= n < 64 ==> r.0@[n] == n / 8 + 8 * (n % 8),
        r.1@.len() == 32,
        forall|n: int| 0 <= n < 32 ==> r.1@[n] == 2 * (n / 8) + single_offset(n % 8),
{
    let mut scale_perm: Vec<u32> = Vec::new();
    let mut n: u32 = 0;
    while n < 64
        invariant
            n <= 64,
            scale_perm@.len() == n,
            forall|m: int| 0 <= m < n ==> scale_perm@[m] == m / 8 + 8 * (m % 8),
        decreases 64 - n,
    {
        scale_perm.push(n / 8 + 8 * (n % 8));
        n += 1;
    }
    let mut scale_perm_single: Vec<u32> = Vec::new();
    n = 0;
    while n < 32
        invariant
            n <= 32,
            scale_perm_single@.len() == n,
            forall|m: int| 0 <= m < n ==> scale_perm_single@[m] == 2 * (m / 8) + single_offset(m % 8),
        decreases 32 - n,
    {
        scale_perm_single.push(2 * (n / 8) + single_offset_of(n % 8));
        n += 1;
    }
    (scale_perm, scale_perm_single)
}

} // verus!
