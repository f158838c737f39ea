//! The render adapter: computes, for the current dataset and engine state,
//! the list of bars to paint — each bar's height and whether it is one of
//! the positions the active algorithm is currently examining. Actual drawing
//! (pixels, colors, stroke widths) is the host's business.

use vstd::prelude::*;
use crate::engine::Engine;

verus! {

/// One vertical bar: its height and whether it should be painted in the
/// highlight color.
#[derive(Clone, Copy, Debug, PartialEq, Eq, Structural)]
pub struct Segment {
    pub height: u32,
    pub highlighted: bool,
}

/// Which position the engine is examining: the insertion cursor, or the
/// `scan` and `compare` pointers of the front quicksort task; nothing once
/// the queue is empty.
pub open spec fn highlight_at(e: Engine, i: int) -> bool {
    match e {
        Engine::Insertion { cursor } => i == cursor as int,
        Engine::Quick { tasks } => tasks@.len() > 0 && (i == tasks@[0].scan as int || i
            == tasks@[0].compare as int),
    }
}

/// One segment per dataset position, carrying that position's height and
/// its highlight state.
pub fn segments(data: &Vec<u32>, engine: &Engine) -> (segs: Vec<Segment>)
    ensures
        segs@.len() == data@.len(),
        forall|i: int|
            0 <= i < segs@.len() ==> (#[trigger] segs@[i]).height == data@[i]
                && segs@[i].highlighted == highlight_at(*engine, i),
{
    let mut segs: Vec<Segment> = Vec::new();
    let mut idx: usize = 0;
    while idx < data.len()
        invariant
            idx <= data@.len(),
            segs@.len() == idx,
            forall|i: int|
                0 <= i < segs@.len() ==> (#[trigger] segs@[i]).height == data@[i]
                    && segs@[i].highlighted == highlight_at(*engine, i),
        decreases data@.len() - idx,
    {
        let hl = match engine {
            Engine::Insertion { cursor } => idx == *cursor,
            Engine::Quick { tasks } => {
                if tasks.len() > 0 {
                    let t = tasks[0];
                    idx == t.scan || idx == t.compare
                } else {
                    false
                }
            }
        };
        segs.push(Segment { height: data[idx], highlighted: hl });
        idx += 1;
    }
    segs
}

} // verus!
