//! The session controller: owns the dataset, the active algorithm choice and
//! the user-tunable parameters, and drives the Idle/Running state machine.
//! A change of viewport or of the requested element count regenerates the
//! dataset and reseeds the engine (forcing Idle); starting a sort seeds the
//! engine and sets it running; each tick while running advances the engine
//! by `speed` primitive steps until it signals completion.

use vstd::prelude::*;
use crate::dataset::{generate, MIN_HEIGHT};
use crate::engine::{seed_progress, sorted, Algorithm, Engine};
use crate::render::{segments, Segment};

verus! {

/// Smallest selectable element count.
pub const MIN_COUNT: usize = 10;

/// Largest selectable element count.
pub const MAX_COUNT: usize = 1000;

/// Smallest selectable speed (primitive steps per tick).
pub const MIN_SPEED: usize = 1;

/// Largest selectable speed.
pub const MAX_SPEED: usize = 20000;

/// The whole animation session.
pub struct Session {
    /// The bar heights being sorted, mutated in place.
    pub data: Vec<u32>,
    /// The resumable state of the active sorting algorithm.
    pub engine: Engine,
    /// True while the engine should be advanced on every tick.
    pub running: bool,
    /// The requested element count; the dataset is regenerated to this
    /// length on the next tick after it changes.
    pub count: usize,
    /// Primitive steps per tick.
    pub speed: usize,
    /// Which algorithm the next seeding sets up.
    pub algorithm: Algorithm,
    /// Viewport width the current dataset was laid out for.
    pub view_width: u32,
    /// Viewport height the current dataset was generated for.
    pub view_height: u32,
    /// Horizontal space per bar: viewport width divided by element count.
    pub bar_width: u32,
}

impl Session {
    /// The controller invariant: the engine state is well formed over the
    /// dataset and the tunable parameters stay in their configured ranges.
    pub open spec fn wf(self) -> bool {
        &&& self.engine.model(self.data@).wf()
        &&& MIN_COUNT <= self.count <= MAX_COUNT
        &&& MIN_SPEED <= self.speed <= MAX_SPEED
    }

    /// A need to reseed: the viewport changed, or the requested element
    /// count no longer matches the dataset.
    pub open spec fn needs_reseed(self, width: u32, height: u32) -> bool {
        width != self.view_width || height != self.view_height || self.count != self.data@.len()
    }

    /// A fresh idle session: no dataset yet (the first tick reseeds), 100
    /// elements requested, speed 1, insertion sort selected.
    pub fn new() -> (s: Session)
        ensures
            s.wf(),
            !s.running,
            s.data@.len() == 0,
            s.count == 100,
            s.speed == 1,
            s.algorithm == Algorithm::Insertion,
            s.view_width == 0,
            s.view_height == 0,
    {
        Session {
            data: Vec::new(),
            engine: Engine::Insertion { cursor: 1 },
            running: false,
            count: 100,
            speed: 1,
            algorithm: Algorithm::Insertion,
            view_width: 0,
            view_height: 0,
            bar_width: 0,
        }
    }

    /// Request a different element count; takes effect at the next tick.
    pub fn set_count(&mut self, count: usize)
        requires
            old(self).wf(),
            MIN_COUNT <= count <= MAX_COUNT,
        ensures
            *final(self) == (Session { count, ..*old(self) }),
            final(self).wf(),
    {
        self.count = count;
    }

    /// Set how many primitive steps each tick advances.
    pub fn set_speed(&mut self, speed: usize)
        requires
            old(self).wf(),
            MIN_SPEED <= speed <= MAX_SPEED,
        ensures
            *final(self) == (Session { speed, ..*old(self) }),
            final(self).wf(),
    {
        self.speed = speed;
    }

    /// Select the algorithm used by the next seeding; in-flight state is not
    /// converted.
    pub fn set_algorithm(&mut self, algorithm: Algorithm)
        requires
            old(self).wf(),
        ensures
            *final(self) == (Session { algorithm, ..*old(self) }),
            final(self).wf(),
    {
        self.algorithm = algorithm;
    }

    /// Regenerate the dataset for the given viewport, recompute the bar
    /// width, reseed the engine for the selected algorithm and force Idle.
    pub fn reseed(&mut self, width: u32, height: u32)
        requires
            old(self).wf(),
            height >= MIN_HEIGHT,
        ensures
            final(self).wf(),
            !final(self).running,
            final(self).count == old(self).count,
            final(self).speed == old(self).speed,
            final(self).algorithm == old(self).algorithm,
            final(self).view_width == width,
            final(self).view_height == height,
            final(self).bar_width == width / (old(self).count as u32),
            final(self).data@.len() == old(self).count,
            forall|i: int|
                0 <= i < final(self).data@.len()
                    ==> MIN_HEIGHT <= #[trigger] final(self).data@[i] <= height,
            final(self).engine.form() == seed_progress(
                old(self).algorithm,
                old(self).count as int,
            ),
    {
        self.data = generate(height, self.count);
        self.view_width = width;
        self.view_height = height;
        self.bar_width = width / (self.count as u32);
        self.engine = Engine::seed(self.algorithm, self.count);
        self.running = false;
        proof {
            crate::engine::lemma_seed_wf(self.algorithm, self.data@);
        }
    }

    /// Start sorting: reset the active engine to its initial seed over the
    /// current dataset and set the session running.
    pub fn start_sort(&mut self)
        requires
            old(self).wf(),
        ensures
            final(self).wf(),
            final(self).running,
            final(self).data == old(self).data,
            final(self).count == old(self).count,
            final(self).speed == old(self).speed,
            final(self).algorithm == old(self).algorithm,
            final(self).view_width == old(self).view_width,
            final(self).view_height == old(self).view_height,
            final(self).engine.form() == seed_progress(
                old(self).algorithm,
                old(self).data@.len() as int,
            ),
    {
        self.engine = Engine::seed(self.algorithm, self.data.len());
        self.running = true;
        proof {
            crate::engine::lemma_seed_wf(self.algorithm, self.data@);
        }
    }

    /// One frame tick. A viewport or count change reseeds (and forces
    /// Idle, not resuming automatically); otherwise, while running, the
    /// engine advances by `speed` primitive steps, and the session returns
    /// to Idle exactly when the engine signals completion — with the
    /// dataset then sorted.
    pub fn tick(&mut self, width: u32, height: u32)
        requires
            old(self).wf(),
            height >= MIN_HEIGHT,
        ensures
            final(self).wf(),
            final(self).count == old(self).count,
            final(self).speed == old(self).speed,
            final(self).algorithm == old(self).algorithm,
            old(self).needs_reseed(width, height) ==> !final(self).running
                && final(self).data@.len() == old(self).count
                && final(self).view_width == width
                && final(self).view_height == height
                && final(self).engine.form() == seed_progress(
                old(self).algorithm,
                old(self).count as int,
            ),
            !old(self).needs_reseed(width, height) && old(self).running ==> ({
                let m1 = final(self).engine.model(final(self).data@);
                &&& m1 == old(self).engine.model(old(self).data@).advance(
                    old(self).speed as nat,
                )
                &&& final(self).running == !m1.complete()
                &&& final(self).data@.to_multiset() == old(self).data@.to_multiset()
                &&& final(self).data@.len() == old(self).data@.len()
                &&& (m1.complete() ==> sorted(final(self).data@))
            }),
            !old(self).needs_reseed(width, height) && !old(self).running ==> *final(self)
                == *old(self),
    {
        if width != self.view_width || height != self.view_height || self.count
            != self.data.len() {
            self.reseed(width, height);
        } else if self.running {
            let complete = self.engine.advance(&mut self.data, self.speed);
            if complete {
                self.running = false;
            }
        }
    }

    /// The bars to paint this frame.
    pub fn bars(&self) -> (segs: Vec<Segment>)
        ensures
            segs@.len() == self.data@.len(),
            forall|i: int|
                0 <= i < segs@.len() ==> (#[trigger] segs@[i]).height == self.data@[i]
                    && segs@[i].highlighted == crate::render::highlight_at(self.engine, i),
    {
        segments(&self.data, &self.engine)
    }
}

} // verus!
