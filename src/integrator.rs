use vstd::prelude::*;

verus! {

/// What came of tracing a ray into the scene.
#[derive(Clone, Copy, Debug, PartialEq, Eq, Structural)]
pub enum TraceOutcome {
    /// The ray left the scene without hitting anything.
    Missed,
    /// The ray hit a surface whose material absorbed it.
    Absorbed,
    /// The ray hit a surface whose material sent it on in a new direction.
    Scattered,
}

/// What the integrator does next for a ray with some bounces left.
#[derive(Clone, Copy, Debug, PartialEq, Eq, Structural)]
pub enum PathAction {
    /// Return black: no bounces are left.
    Black,
    /// Trace the ray into the scene and report what came of it.
    Trace,
    /// Return the background color.
    Background,
    /// Return the light the hit surface emits, and nothing more.
    Emitted,
    /// Return the emitted light plus the scattered ray's color weighted by the
    /// material's contribution, the scattered ray being followed with the
    /// given number of bounces left.
    Bounce(i32),
}

/// The step of the path integrator for a ray with `depth` bounces left, before
/// it is traced (`outcome` is `None`) or after. With no bounces left the
/// answer is black whatever the ray and the scene; a scattered ray is followed
/// with one bounce fewer, so every path ends after at most `depth` bounces.
pub fn path_action(depth: i32, outcome: Option<TraceOutcome>) -> (r: PathAction)
    ensures
        depth <= 0 ==> r == PathAction::Black,
        depth > 0 ==> r == match outcome {
            None => PathAction::Trace,
            Some(TraceOutcome::Missed) => PathAction::Background,
            Some(TraceOutcome::Absorbed) => PathAction::Emitted,
            Some(TraceOutcome::Scattered) => PathAction::Bounce((depth - 1) as i32),
        },
        r matches PathAction::Bounce(d) ==> 0 <= d < depth,
{
    if depth <= 0 {
        return PathAction::Black;
    }
    match outcome {
        None => PathAction::Trace,
        Some(TraceOutcome::Missed) => PathAction::Background,
        Some(TraceOutcome::Absorbed) => PathAction::Emitted,
        Some(TraceOutcome::Scattered) => PathAction::Bounce(depth - 1),
    }
}

/// An index below `count` drawn at random, used to pick which light of a
/// collection supplies a sample point.
pub fn random_index(count: usize) -> (r: usize)
    requires
        count > 0,
    ensures
        r < count,
{
    rand::random::<usize>() % count
}

} // verus!
