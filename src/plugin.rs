use vstd::prelude::*;

verus! {

/// Set of the systems relating to transform propagation.
#[derive(Clone, Copy, Debug, PartialEq, Eq, Structural, Hash)]
pub enum TransformSystem {
    /// Propagates changes in local transforms to the global transforms of
    /// the nodes below them.
    TransformPropagate,
}

/// A point of the host's frame at which transform passes are scheduled.
#[derive(Clone, Copy, Debug, PartialEq, Eq, Structural, Hash)]
pub enum Stage {
    /// Once, after the scene has been built, so that the first frame is
    /// already correct.
    PostStartup,
    /// Every frame, after the application has updated its transforms.
    PostUpdate,
}

/// One of the three phases of a pass.
#[derive(Clone, Copy, Debug, PartialEq, Eq, Structural, Hash)]
pub enum Phase {
    MarkDirtyTrees,
    PropagateParentTransforms,
    SyncSimpleTransforms,
}

/// A group of phases that the host runs in the given order, in the given
/// system set, at the given stage.
#[derive(Clone, Debug, PartialEq, Eq)]
pub struct Registration {
    pub stage: Stage,
    pub set: TransformSystem,
    pub phases: Vec<Phase>,
}

/// The order in which the phases of a pass run.
pub open spec fn pass_order() -> Seq<Phase> {
    seq![Phase::MarkDirtyTrees, Phase::PropagateParentTransforms, Phase::SyncSimpleTransforms]
}

/// The base plugin for handling transforms: what a host has to schedule so
/// that global transforms are kept up to date.
#[derive(Clone, Copy, Debug, PartialEq, Eq, Structural, Hash)]
pub struct TransformPlugin;

impl Default for TransformPlugin {
    fn default() -> (r: TransformPlugin)
        ensures
            r == TransformPlugin,
    {
        TransformPlugin
    }
}

fn pass_phases() -> (r: Vec<Phase>)
    ensures
        r@ == pass_order(),
{
    let mut v: Vec<Phase> = Vec::new();
    v.push(Phase::MarkDirtyTrees);
    v.push(Phase::PropagateParentTransforms);
    v.push(Phase::SyncSimpleTransforms);
    assert(v@ =~= pass_order());
    v
}

impl TransformPlugin {
    /// The registrations the plugin makes: a full pass, chained in phase
    /// order, in the propagation set, once after startup and then on every
    /// update.
    pub fn build(&self) -> (r: Vec<Registration>)
        ensures
            r@.len() == 2,
            r@[0].stage == Stage::PostStartup,
            r@[1].stage == Stage::PostUpdate,
            forall|i: int| 0 <= i < 2 ==> (#[trigger] r@[i]).set == TransformSystem::TransformPropagate
                && r@[i].phases@ == pass_order(),
    {
        let mut r: Vec<Registration> = Vec::new();
        r.push(Registration { stage: Stage::PostStartup, set: TransformSystem::TransformPropagate, phases: pass_phases() });
        r.push(Registration { stage: Stage::PostUpdate, set: TransformSystem::TransformPropagate, phases: pass_phases() });
        r
    }
}

} // verus!
