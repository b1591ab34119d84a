use vstd::prelude::*;

use crate::config::ShutdownMode;
use crate::registry::{ContainerId, StartedContainerDetails};

verus! {

/// A request to the container engine about one container.
#[derive(Debug)]
pub enum EngineAction {
    /// Stop it with a termination signal and a grace period.
    Stop(ContainerId),
    /// Remove it at once, whatever its state.
    Remove(ContainerId),
}

/// The kind and container of an [`EngineAction`].
pub enum ActionView {
    Stop(Seq<char>),
    Remove(Seq<char>),
}

impl View for EngineAction {
    type V = ActionView;

    open spec fn view(&self) -> ActionView {
        match self {
            EngineAction::Stop(id) => ActionView::Stop(id.0@),
            EngineAction::Remove(id) => ActionView::Remove(id.0@),
        }
    }
}

/// What retiring one container takes: a graceful service is stopped, then
/// removed; a forceful one is removed at once.
pub open spec fn retirement_of(id: Seq<char>, mode: ShutdownMode) -> Seq<ActionView> {
    match mode {
        ShutdownMode::Graceful => seq![ActionView::Stop(id), ActionView::Remove(id)],
        ShutdownMode::Forceful => seq![ActionView::Remove(id)],
    }
}

/// What retiring each of `ids`, in order, takes.
pub open spec fn retirement_plan(ids: Seq<Seq<char>>, mode: ShutdownMode) -> Seq<ActionView>
    decreases ids.len(),
{
    if ids.len() == 0 {
        Seq::empty()
    } else {
        retirement_plan(ids.drop_last(), mode) + retirement_of(ids.last(), mode)
    }
}

pub open spec fn ids_of(s: Seq<StartedContainerDetails>) -> Seq<Seq<char>> {
    s.map_values(|d: StartedContainerDetails| d.id.0@)
}

pub open spec fn actions_view(s: Seq<EngineAction>) -> Seq<ActionView> {
    s.map_values(|a: EngineAction| a@)
}

/// The engine requests that retire `containers` of a service with the given
/// shutdown mode, container by container.
pub fn retire(containers: &Vec<StartedContainerDetails>, mode: ShutdownMode) -> (r: Vec<EngineAction>)
    ensures
        actions_view(r@) == retirement_plan(ids_of(containers@), mode),
{
    let ghost ids = ids_of(containers@);
    let mut r: Vec<EngineAction> = Vec::new();
    let mut i: usize = 0;
    while i < containers.len()
        invariant
            ids == ids_of(containers@),
            i <= containers@.len(),
            actions_view(r@) == retirement_plan(ids.subrange(0, i as int), mode),
        decreases containers@.len() - i,
    {
        let ghost prev = r@;
        let ghost pre = ids.subrange(0, i as int);
        assert(ids.subrange(0, i + 1).drop_last() =~= pre);
        assert(ids[i as int] == containers@[i as int].id.0@);
        match mode {
            ShutdownMode::Graceful => {
                r.push(EngineAction::Stop(containers[i].id.clone()));
                r.push(EngineAction::Remove(containers[i].id.clone()));
            },
            ShutdownMode::Forceful => {
                r.push(EngineAction::Remove(containers[i].id.clone()));
            },
        }
        assert(actions_view(r@) =~= actions_view(prev) + retirement_of(ids[i as int], mode));
        i = i + 1;
    }
    assert(ids.subrange(0, ids.len() as int) =~= ids);
    r
}

/// What starting the containers of a service does next.
#[derive(Debug)]
pub enum StartStep {
    /// Start one more container.
    StartAnother,
    /// All replicas run.
    Done,
    /// A start failed: retire the ones already started with these requests,
    /// and give up.
    RollBack(Vec<EngineAction>),
}

/// The next step after `started` containers of `replicas` are running, when
/// the last attempt `failed` or not: new containers are started until there
/// are `replicas`; a failure removes the started ones at once.
pub fn next_start_step(started: &Vec<StartedContainerDetails>, replicas: u8, failed: bool) -> (r: StartStep)
    ensures
        failed ==> r is RollBack && actions_view(r->RollBack_0@) == retirement_plan(
            ids_of(started@),
            ShutdownMode::Forceful,
        ),
        !failed && started@.len() < replicas ==> r is StartAnother,
        !failed && started@.len() >= replicas ==> r is Done,
{
    if failed {
        StartStep::RollBack(retire(started, ShutdownMode::Forceful))
    } else if started.len() < replicas as usize {
        StartStep::StartAnother
    } else {
        StartStep::Done
    }
}

} // verus!
