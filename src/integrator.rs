//! The decisions of the light-transport integrator, as a state machine: the
//! caller traces rays, scatters them and multiplies colors, and reports
//! what happened; the path says what to do next.
use vstd::prelude::*;

verus! {

/// The default bound on the number of bounces of a path.
pub const MAX_DEPTH: u32 = 50;

/// What a path ends with.
#[derive(Clone, Copy, Debug, PartialEq, Eq, Structural)]
pub enum Radiance {
    /// No light: the bound on bounces was reached, or the ray was absorbed.
    Black,
    /// The sky gradient seen along the ray's direction, times what the path
    /// has gathered.
    Background,
}

/// What the caller does next.
#[derive(Clone, Copy, Debug, PartialEq, Eq, Structural)]
pub enum PathAction {
    /// Query the scene for the nearest hit of the current ray.
    Trace,
    /// Stop with this radiance.
    Finish(Radiance),
}

/// What the scene query, and the material at its hit, did with the ray.
#[derive(Clone, Copy, Debug, PartialEq, Eq, Structural)]
pub enum PathEvent {
    /// Nothing was hit.
    Missed,
    /// The material absorbed the ray.
    Absorbed,
    /// The material sent out a new ray, whose attenuation the caller keeps.
    Scattered,
}

#[derive(Clone, Copy, Debug, PartialEq, Eq, Structural)]
pub struct PathState {
    pub depth: u32,
    pub max_depth: u32,
}

impl PathState {
    pub open spec fn spec_next(self) -> PathAction {
        if self.depth >= self.max_depth {
            PathAction::Finish(Radiance::Black)
        } else {
            PathAction::Trace
        }
    }

    /// A path at depth 0.
    pub fn new(max_depth: u32) -> (r: PathState)
        ensures
            r.depth == 0,
            r.max_depth == max_depth,
    {
        PathState { depth: 0, max_depth }
    }

    /// A path already at `depth`.
    pub fn at_depth(depth: u32, max_depth: u32) -> (r: PathState)
        ensures
            r.depth == depth,
            r.max_depth == max_depth,
    {
        PathState { depth, max_depth }
    }

    /// At or past the bound on bounces the path yields black, whatever the
    /// scene holds; below it the scene is queried.
    pub fn next(&self) -> (r: PathAction)
        ensures
            r == self.spec_next(),
            self.depth >= self.max_depth ==> r == PathAction::Finish(Radiance::Black),
            self.depth < self.max_depth ==> r == PathAction::Trace,
    {
        if self.depth >= self.max_depth {
            PathAction::Finish(Radiance::Black)
        } else {
            PathAction::Trace
        }
    }

    /// Takes in what the last query did: a miss ends in the background, an
    /// absorption in black, a scattering goes one bounce deeper.
    pub fn advance(&mut self, event: PathEvent) -> (r: PathAction)
        requires
            old(self).depth < old(self).max_depth,
        ensures
            final(self).max_depth == old(self).max_depth,
            event == PathEvent::Missed ==> r == PathAction::Finish(Radiance::Background)
                && final(self).depth == old(self).depth,
            event == PathEvent::Absorbed ==> r == PathAction::Finish(Radiance::Black)
                && final(self).depth == old(self).depth,
            event == PathEvent::Scattered ==> final(self).depth == old(self).depth + 1 && r
                == final(self).spec_next(),
    {
        match event {
            PathEvent::Missed => PathAction::Finish(Radiance::Background),
            PathEvent::Absorbed => PathAction::Finish(Radiance::Black),
            PathEvent::Scattered => {
                self.depth = self.depth + 1;
                self.next()
            },
        }
    }
}

} // verus!
