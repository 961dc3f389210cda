use vstd::prelude::*;

verus! {

/// What the scene query and the material reported for one traced ray.
#[derive(Clone, Copy, Debug, PartialEq, Eq, Structural)]
pub enum PathEvent {
    /// The ray hit nothing within the query interval.
    Miss,
    /// The nearest hit's material scattered a new ray.
    HitScattered,
    /// The nearest hit's material absorbed the ray (a pure emitter).
    HitAbsorbed,
}

/// What the light-transport evaluation does next with one traced ray.
#[derive(Clone, Copy, Debug, PartialEq, Eq, Structural)]
pub enum PathStep {
    /// Stop and contribute the background color.
    ReturnBackground,
    /// Stop and contribute the emitted radiance alone.
    ReturnEmitted,
    /// Trace the scattered ray, with the depth that is left.
    Recurse { remaining: usize },
}

/// The termination decision of the recursive light-transport evaluation:
/// exhausted depth and a miss both yield the background; an absorbing hit
/// yields its emitted radiance alone; a scattering hit is followed one level
/// deeper. A miss yields the background at every depth, so a scene that
/// nothing can be hit in colors every sample with the background.
pub fn next_path_step(depth: usize, event: PathEvent) -> (step: PathStep)
    ensures
        depth == 0 ==> step == PathStep::ReturnBackground,
        event == PathEvent::Miss ==> step == PathStep::ReturnBackground,
        depth > 0 && event == PathEvent::HitScattered ==> step == (PathStep::Recurse {
            remaining: (depth - 1) as usize,
        }),
        depth > 0 && event == PathEvent::HitAbsorbed ==> step == PathStep::ReturnEmitted,
        step matches PathStep::Recurse { remaining } ==> remaining < depth,
{
    if depth == 0 {
        return PathStep::ReturnBackground;
    }
    match event {
        PathEvent::Miss => PathStep::ReturnBackground,
        PathEvent::HitScattered => PathStep::Recurse { remaining: depth - 1 },
        PathEvent::HitAbsorbed => PathStep::ReturnEmitted,
    }
}

/// How many times the evaluation recurses when it starts with the given
/// depth and the scene answers with the given events, one per level.
pub open spec fn path_recursions(depth: nat, events: Seq<PathEvent>) -> nat
    decreases events.len(),
{
    if depth == 0 || events.len() == 0 {
        0
    } else if events[0] == PathEvent::HitScattered {
        1 + path_recursions((depth - 1) as nat, events.drop_first())
    } else {
        0
    }
}

/// The recursion is bounded by the starting depth, whatever the scene
/// answers: the depth counter falls by one at every level.
pub proof fn lemma_recursion_bounded(depth: nat, events: Seq<PathEvent>)
    ensures
        path_recursions(depth, events) <= depth,
    decreases events.len(),
{
    if depth != 0 && events.len() != 0 && events[0] == PathEvent::HitScattered {
        lemma_recursion_bounded((depth - 1) as nat, events.drop_first());
    }
}

} // verus!
