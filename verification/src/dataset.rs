//! Random dataset generation: `count` bar heights, each drawn below the
//! available drawing height and clamped to a minimum visible height.

use vstd::prelude::*;

verus! {

/// Smallest height a generated bar may have, so every bar stays visible.
pub const MIN_HEIGHT: u32 = 5;

/// Relies on rand's `Rng::gen_range` on the range `low..high`: it returns a
/// uniformly distributed value within that range, and panics only when the
/// range is empty, which the precondition rules out.
#[verifier::external_body]
fn random_in_range(low: u32, high: u32) -> (r: u32)
    requires
        low < high,
    ensures
        low <= r < high,
{
    rand::Rng::gen_range(&mut rand::thread_rng(), low..high)
}

/// The clamp applied to each raw draw: a value below the minimum height is
/// pushed up to exactly the minimum by adding the shortfall.
pub open spec fn clamped(v: u32) -> u32 {
    if v < MIN_HEIGHT {
        MIN_HEIGHT
    } else {
        v
    }
}

/// Produce `count` fresh heights, each at least `MIN_HEIGHT` and at most
/// `max_height`. The draws are independent; no ordering is guaranteed.
pub fn generate(max_height: u32, count: usize) -> (data: Vec<u32>)
    requires
        max_height >= MIN_HEIGHT,
    ensures
        data@.len() == count,
        forall|i: int| 0 <= i < data@.len() ==> MIN_HEIGHT <= #[trigger] data@[i] <= max_height,
{
    let mut data: Vec<u32> = Vec::new();
    let mut idx: usize = 0;
    while idx < count
        invariant
            idx <= count,
            max_height >= MIN_HEIGHT,
            data@.len() == idx,
            forall|i: int| 0 <= i < data@.len() ==> MIN_HEIGHT <= #[trigger] data@[i] <= max_height,
        decreases count - idx,
    {
        let raw = random_in_range(0, max_height);
        let v = if raw < MIN_HEIGHT {
            MIN_HEIGHT
        } else {
            raw
        };
        data.push(v);
        idx += 1;
    }
    data
}

} // verus!
