//! The expected value of a roll.
//!
//! A standard die's expectation is `(sides + 1) / 2` per die; a Fudge die's
//! is zero. The expected total is always a whole number of halves, so the
//! library works with twice its value, which is an integer, and never loses
//! exactness.

use crate::notation::{DieSides, DieSpec};
use vstd::prelude::*;

verus! {

/// Twice the expected total of a roll: `count` times twice the per-die
/// expectation, plus twice the modifier.
pub open spec fn spec_avg_twice(dspec: DieSpec) -> int {
    match dspec.sides {
        DieSides::Standard(s) => dspec.count * (s + 1) + 2 * dspec.modifier,
        DieSides::Fudge => 2 * dspec.modifier,
    }
}

/// The expected total of a roll, in half units. No randomness is involved:
/// the result is exact for every die specification.
pub fn calculate_average(dspec: &DieSpec) -> (avg2: i128)
    ensures
        avg2 as int == spec_avg_twice(*dspec),
        -0x1_0000_0000_0000_0000 <= avg2 as int <= 0x1_0000_0000_0000_0000,
{
    match dspec.sides {
        DieSides::Standard(s) => {
            proof {
                assert(0 <= dspec.count as int * (s as int + 1) <= 0xffff_ffff_0000_0000int)
                    by (nonlinear_arith)
                    requires
                        0 <= dspec.count as int <= 0xffff_ffff,
                        1 <= s as int + 1 <= 0x1_0000_0000,
                ;
            }
            (dspec.count as i128) * ((s as i128) + 1) + 2 * (dspec.modifier as i128)
        },
        DieSides::Fudge => 2 * (dspec.modifier as i128),
    }
}

} // verus!
