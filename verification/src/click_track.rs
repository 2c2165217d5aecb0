//! The computable core of click-track synthesis: the tick positions of
//! the clicks inside a section. Rendering the click sound itself is an
//! external (floating-point audio) collaborator.

use vstd::prelude::*;

verus! {

/// Index of the first click that lands at or after the tick origin when
/// clicks sit at `offset`, `offset + step`, `offset + 2 * step`, ...:
/// zero unless the offset is negative.
pub open spec fn first_click(offset: int, step: int) -> int {
    if offset >= 0 {
        0
    } else {
        (-offset + step - 1) / step
    }
}

/// The click positions of a section: starting at `offset`, one every
/// `step` ticks, strictly before `end`; clicks before the tick origin
/// are skipped.
pub fn click_positions(offset: i64, step: u64, end: u64) -> (positions: Vec<u64>)
    requires
        1 <= step <= 0x8000_0000,
        end <= 0x8000_0000,
        -0x8000_0000 <= offset <= 0x8000_0000,
    ensures
        forall|k: int|
            0 <= k < positions@.len() ==> #[trigger] positions@[k] as int == offset + (
            first_click(offset as int, step as int) + k) * step,
        forall|k: int| 0 <= k < positions@.len() ==> #[trigger] positions@[k] < end,
        positions@.len() > 0 ==> positions@.last() as int + step >= end,
        positions@.len() == 0 ==> offset + first_click(offset as int, step as int) * (step as int)
            >= end,
{
    let ghost f = first_click(offset as int, step as int);
    let mut positions: Vec<u64> = Vec::new();
    let mut pos: i64 = offset;
    if offset < 0 {
        let skip = (((-offset) as u64) + step - 1) / step;
        proof {
            let d = -(offset as int);
            vstd::arithmetic::div_mod::lemma_fundamental_div_mod(d + step - 1, step as int);
            assert((step as int) * ((d + step - 1) / (step as int)) == ((d + step - 1) / (step
                as int)) * (step as int)) by (nonlinear_arith);
            assert(0 <= (d + step - 1) % (step as int) < step as int) by {
                vstd::arithmetic::div_mod::lemma_mod_bound(d + step - 1, step as int);
            }
            assert(d <= (skip as int) * (step as int) <= d + step - 1);
            assert(skip == f);
        }
        pos = offset + (skip * step) as i64;
    }
    proof {
        assert(pos == offset + f * (step as int)) by {
            if offset >= 0 {
                assert(f * (step as int) == 0) by (nonlinear_arith)
                    requires
                        f == 0,
                ;
            }
        }
        assert(0 <= pos <= 0x1_0000_0000);
    }
    while (pos as u64) < end
        invariant
            1 <= step <= 0x8000_0000,
            end <= 0x8000_0000,
            -0x8000_0000 <= offset <= 0x8000_0000,
            0 <= pos,
            pos <= 0x1_8000_0000,
            f == first_click(offset as int, step as int),
            pos == offset + (f + positions@.len()) * (step as int),
            forall|j: int|
                0 <= j < positions@.len() ==> #[trigger] positions@[j] as int == offset + (f + j)
                    * (step as int),
            forall|j: int| 0 <= j < positions@.len() ==> #[trigger] positions@[j] < end,
            positions@.len() > 0 ==> positions@.last() as int + step == pos,
        decreases end + step - pos,
    {
        positions.push(pos as u64);
        proof {
            let n = positions@.len();
            assert(positions@.last() as int == offset + (f + n - 1) * (step as int));
            assert((f + n - 1) * (step as int) + (step as int) == (f + n) * (step as int))
                by (nonlinear_arith);
        }
        pos = pos + step as i64;
    }
    positions
}

} // verus!
