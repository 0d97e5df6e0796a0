//! Integer helpers.
use vstd::prelude::*;

verus! {

/// `r` has exactly one bit set.
pub open spec fn is_power_of_two(r: u64) -> bool {
    r > 0 && r & ((r - 1) as u64) == 0
}

/// The least power of two not below `x`, found by smearing the highest set
/// bit of `x - 1` into every lower bit; zero for zero.
pub fn least_power_of_2_greater(x: u64) -> (r: u64)
    requires
        x <= 0x8000_0000_0000_0000,
    ensures
        x == 0 ==> r == 0,
        x > 0 ==> is_power_of_two(r) && x <= r && r / 2 < x,
{
    if x < 1 {
        return 0;
    }
    let mut v = x - 1;
    v = v | (v >> 1u64);
    v = v | (v >> 2u64);
    v = v | (v >> 4u64);
    v = v | (v >> 8u64);
    v = v | (v >> 16u64);
    v = v | (v >> 32u64);
    proof {
        lemma_smear(x);
    }
    v + 1
}

proof fn lemma_smear(x: u64)
    requires
        1 <= x <= 0x8000_0000_0000_0000,
    ensures
        ({
            let v0 = vstd::prelude::sub(x, 1);
            let v1 = v0 | (v0 >> 1u64);
            let v2 = v1 | (v1 >> 2u64);
            let v3 = v2 | (v2 >> 4u64);
            let v4 = v3 | (v3 >> 8u64);
            let v5 = v4 | (v4 >> 16u64);
            let v6 = v5 | (v5 >> 32u64);
            &&& v6 < 0xffff_ffff_ffff_ffff
            &&& vstd::prelude::add(v6, 1) >= x
            &&& vstd::prelude::add(v6, 1) / 2 < x
            &&& vstd::prelude::add(v6, 1) & v6 == 0
            &&& vstd::prelude::add(v6, 1) > 0
        }),
{
    assert({
        let v0 = vstd::prelude::sub(x, 1);
        let v1 = v0 | (v0 >> 1u64);
        let v2 = v1 | (v1 >> 2u64);
        let v3 = v2 | (v2 >> 4u64);
        let v4 = v3 | (v3 >> 8u64);
        let v5 = v4 | (v4 >> 16u64);
        let v6 = v5 | (v5 >> 32u64);
        &&& v6 < 0xffff_ffff_ffff_ffff
        &&& vstd::prelude::add(v6, 1) >= x
        &&& vstd::prelude::add(v6, 1) / 2 < x
        &&& vstd::prelude::add(v6, 1) & v6 == 0
        &&& vstd::prelude::add(v6, 1) > 0
    }) by (bit_vector)
        requires
            1 <= x <= 0x8000_0000_0000_0000,
    ;
}

} // verus!
