use vstd::prelude::*;

verus! {

/// The depth of a camera ray.
pub const FIRST_DEPTH: u32 = 1;

/// Rays at this depth or deeper are not scattered again.
pub const MAX_DEPTH: u32 = 20;

/// What happened to the ray that is being traced.
#[derive(Clone, Copy, Debug, PartialEq, Eq)]
pub enum Event {
    /// It reached no primitive.
    Miss,
    /// It reached a primitive.
    Hit,
    /// The material of the primitive it reached absorbed it.
    Absorbed,
    /// The material of the primitive it reached sent it on.
    Scattered,
}

/// What the tracer does next.
#[derive(Clone, Copy, Debug, PartialEq, Eq)]
pub enum Action {
    /// End the path with the sky's colour for the ray's direction.
    Sky,
    /// End the path with black.
    Black,
    /// Ask the material at the hit whether and how it scatters the ray.
    AskMaterial,
    /// Trace the scattered ray at the given depth, and multiply what it
    /// brings back by the scatter's attenuation.
    Trace(u32),
}

pub open spec fn step(depth: u32, event: Event) -> Action {
    match event {
        Event::Miss => Action::Sky,
        Event::Hit => if depth < MAX_DEPTH {
            Action::AskMaterial
        } else {
            Action::Black
        },
        Event::Absorbed => Action::Black,
        Event::Scattered => Action::Trace((depth + 1) as u32),
    }
}

/// The tracer's decision at `depth` after `event`. A material is only asked
/// below the depth cap, so a scattered ray never goes deeper than the cap.
pub fn next_action(depth: u32, event: Event) -> (r: Action)
    requires
        event == Event::Scattered ==> depth < MAX_DEPTH,
    ensures
        r == step(depth, event),
{
    match event {
        Event::Miss => Action::Sky,
        Event::Hit => if depth < MAX_DEPTH {
            Action::AskMaterial
        } else {
            Action::Black
        },
        Event::Absorbed => Action::Black,
        Event::Scattered => Action::Trace(depth + 1),
    }
}

/// Every ray that is traced again lies one level deeper and within the cap,
/// so a path from the camera scatters at most `MAX_DEPTH - FIRST_DEPTH`
/// times before it ends.
pub proof fn lemma_depth_capped(depth: u32, event: Event)
    requires
        event == Event::Scattered ==> depth < MAX_DEPTH,
    ensures
        step(depth, event) is Trace ==> step(depth, event)->Trace_0 == depth + 1
            && step(depth, event)->Trace_0 <= MAX_DEPTH,
        step(depth, event) is AskMaterial ==> depth < MAX_DEPTH,
        event == Event::Miss <==> step(depth, event) == Action::Sky,
{
}

} // verus!
