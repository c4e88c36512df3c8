//! Data-moving reassignment of one position.
//!
//! A move plans its endpoints from a committed read, reserves them, and checks that nothing
//! changed meanwhile. Only then may it start. A started move first persists its intent; then
//! the target is recovered, the source fenced and drained; while the fence keeps the source
//! quiet, the target's fingerprint is recorded and the assignment committed under its
//! predicate; only after that does live routing follow. A crash leaves one durable phase that
//! startup can resume.
//!
//! The caller does the outside work: `Reassign` says what to do next and decides on each
//! answer.

use vstd::prelude::*;

use crate::document::{
    AssignmentView, ClusterState, ClusterStateView, CommandView, EvidenceView, IntentView,
    MoveCommand, MoveInitialAuthority, MoveIntent, MoveMemberEvidence, MoveRecoveryEvidence,
    NodeDescriptor, NodeId, NodeView, ShardAssignment,
};
use crate::error::{ConfigFault, ControlFault, ShardError};
use crate::intent::{
    build_intent, first_unregistered, live_authority_fence, member_evidence,
    plan_live_authority_fence, planned_intent, recovery_evidence, transition_nodes,
};
use crate::keyed::{find_key, has_key, sorted_by_key, views};
use crate::text::{normalized, normalized_move_endpoint};

verus! {

/// How often a move is planned before a changing map ends it.
pub const PLAN_ATTEMPTS: u32 = 4;

/// How a reassignment ended.
#[derive(Clone, Copy, Debug, PartialEq, Eq, Structural)]
pub enum ReassignOutcome {
    /// Live and committed authority already agree on the target: nothing moved and nothing was
    /// proposed.
    NoChange { position: u32, generation: u64 },
    /// The data moved and the committed map names the target.
    Moved { position: u32, from: NodeId, to: NodeId, generation: u64 },
    /// Live routing already was at the target; the committed map now names it.
    Reconciled { position: u32, from: NodeId, to: NodeId, generation: u64 },
    /// The data moved, but the committed map does not name the target. The durable mover does
    /// not end so; callers that know it from elsewhere may report it.
    MovedButNotCommitted {
        position: u32,
        from: NodeId,
        to: NodeId,
        generation: u64,
        moved: bool,
    },
}

/// Where a position is served from.
#[derive(Debug, PartialEq, Eq)]
pub enum LiveRoute {
    /// The cluster cannot move the position.
    NotCapable,
    /// Nothing serves it remotely.
    NoPrimary,
    /// The endpoint that serves it.
    Primary(String),
}

/// The view of `LiveRoute`.
#[verifier::ext_equal]
pub enum LiveView {
    NotCapable,
    NoPrimary,
    Primary(Seq<char>),
}

impl View for LiveRoute {
    type V = LiveView;

    open spec fn view(&self) -> LiveView {
        match *self {
            LiveRoute::NotCapable => LiveView::NotCapable,
            LiveRoute::NoPrimary => LiveView::NoPrimary,
            LiveRoute::Primary(endpoint) => LiveView::Primary(endpoint@),
        }
    }
}

/// What lies between the live primary and the target.
#[derive(Clone, Copy, Debug, PartialEq, Eq, Structural)]
pub enum HandoffRoute {
    /// The target already serves, since the given generation.
    AlreadyAtTarget { generation: u64 },
    /// The data has to move.
    Move,
}

/// An error, with the text that it carries as a sequence.
pub enum ErrorView {
    Plain(ShardError),
    LiveSourceUnregistered(Seq<char>),
    LiveSourceAliased(Seq<char>),
    StillRoutes(u64, Seq<char>),
}

/// The view of an error.
pub open spec fn error_view(e: ShardError) -> ErrorView {
    match e {
        ShardError::ControlPlane(ControlFault::LiveSourceUnregistered { endpoint }) =>
            ErrorView::LiveSourceUnregistered(endpoint@),
        ShardError::ControlPlane(ControlFault::LiveSourceAliased { endpoint }) =>
            ErrorView::LiveSourceAliased(endpoint@),
        ShardError::ControlPlane(ControlFault::StillRoutes { position, endpoint }) =>
            ErrorView::StillRoutes(position, endpoint@),
        _ => ErrorView::Plain(e),
    }
}

// ---- The plan ------------------------------------------------------------------------------

/// The endpoints of a move, as one read of the document has them.
#[derive(Debug, PartialEq, Eq)]
pub struct MovePlan {
    pub expected: ShardAssignment,
    pub to: NodeId,
    pub from_endpoint: String,
    pub live_endpoint: String,
    pub target_endpoint: String,
}

/// The view of `MovePlan`.
#[verifier::ext_equal]
pub struct PlanView {
    pub expected: AssignmentView,
    pub to: NodeId,
    pub from_endpoint: Seq<char>,
    pub live_endpoint: Seq<char>,
    pub target_endpoint: Seq<char>,
}

impl View for MovePlan {
    type V = PlanView;

    open spec fn view(&self) -> PlanView {
        PlanView {
            expected: self.expected@,
            to: self.to,
            from_endpoint: self.from_endpoint@,
            live_endpoint: self.live_endpoint@,
            target_endpoint: self.target_endpoint@,
        }
    }
}

/// The plan of a move, or the first reason why there is none.
pub open spec fn plan_result(
    state: ClusterStateView,
    position: u32,
    to: NodeId,
    live: LiveView,
) -> Result<PlanView, ShardError> {
    match state.assignment(position) {
        None => Err(
            ShardError::ControlPlane(ControlFault::NoAssignment { position: position as u64 }),
        ),
        Some(assignment) => if assignment.replicas.len() > 0 {
            Err(
                ShardError::Config(
                    ConfigFault::Replicated {
                        position: position as u64,
                        replicas: assignment.replicas.len() as u64,
                    },
                ),
            )
        } else if state.endpoint(assignment.primary) is None {
            Err(
                ShardError::ControlPlane(
                    ControlFault::NodeUnroutable { node: assignment.primary },
                ),
            )
        } else if state.endpoint(to) is None {
            Err(ShardError::ControlPlane(ControlFault::NodeUnroutable { node: to }))
        } else {
            match live {
                LiveView::NotCapable => Err(
                    ShardError::Config(
                        ConfigFault::NotHandoffCapable { position: position as u64 },
                    ),
                ),
                LiveView::NoPrimary => Err(
                    ShardError::Config(ConfigFault::NoLivePrimary { position: position as u64 }),
                ),
                LiveView::Primary(endpoint) => Ok(
                    PlanView {
                        expected: assignment,
                        to,
                        from_endpoint: state.endpoint(assignment.primary)->0,
                        live_endpoint: endpoint,
                        target_endpoint: state.endpoint(to)->0,
                    },
                ),
            }
        },
    }
}

/// Plans a single-target move of a position that has no replicas.
pub fn plan_reassign(
    state: &ClusterState,
    position: u32,
    to: NodeId,
    live: &LiveRoute,
) -> (r: Result<MovePlan, ShardError>)
    ensures
        match r {
            Ok(plan) => plan_result(state@, position, to, live@) == Ok::<PlanView, ShardError>(
                plan@,
            ),
            Err(e) => plan_result(state@, position, to, live@) == Err::<PlanView, ShardError>(e),
        },
{
    let assignment = match state.assignment(position) {
        Some(assignment) => assignment,
        None => {
            return Err(
                ShardError::ControlPlane(ControlFault::NoAssignment { position: position as u64 }),
            );
        },
    };
    if assignment.replicas.len() > 0 {
        return Err(
            ShardError::Config(
                ConfigFault::Replicated {
                    position: position as u64,
                    replicas: assignment.replicas.len() as u64,
                },
            ),
        );
    }
    let from_endpoint = match state.endpoint(assignment.primary) {
        Some(endpoint) => endpoint.clone(),
        None => {
            return Err(
                ShardError::ControlPlane(
                    ControlFault::NodeUnroutable { node: assignment.primary },
                ),
            );
        },
    };
    let target_endpoint = match state.endpoint(to) {
        Some(endpoint) => endpoint.clone(),
        None => {
            return Err(ShardError::ControlPlane(ControlFault::NodeUnroutable { node: to }));
        },
    };
    let live_endpoint = match live {
        LiveRoute::NotCapable => {
            return Err(
                ShardError::Config(ConfigFault::NotHandoffCapable { position: position as u64 }),
            );
        },
        LiveRoute::NoPrimary => {
            return Err(
                ShardError::Config(ConfigFault::NoLivePrimary { position: position as u64 }),
            );
        },
        LiveRoute::Primary(endpoint) => endpoint.clone(),
    };
    Ok(
        MovePlan {
            expected: assignment.clone(),
            to,
            from_endpoint,
            live_endpoint,
            target_endpoint,
        },
    )
}

/// An endpoint is registered, and is the planned one.
pub open spec fn still_at(registered: Option<Seq<char>>, planned: Seq<char>) -> bool {
    registered is Some && normalized(registered->0) == normalized(planned)
}

/// What the plan was made from still holds: the committed entry, both membership resolutions
/// and the live primary.
pub open spec fn plan_holds(plan: PlanView, state: ClusterStateView, live: Seq<char>) -> bool {
    &&& state.assignment(plan.expected.position) matches Some(a) && a.primary
        == plan.expected.primary && a.replicas.len() == 0
    &&& still_at(state.endpoint(plan.expected.primary), plan.from_endpoint)
    &&& still_at(state.endpoint(plan.to), plan.target_endpoint)
    &&& normalized(live) == normalized(plan.live_endpoint)
}

fn is_still_at(registered: Option<&String>, planned: &String) -> (r: bool)
    ensures
        r == still_at(
            match registered {
                Some(endpoint) => Some(endpoint@),
                None => None,
            },
            planned@,
        ),
{
    match registered {
        Some(endpoint) => normalized_move_endpoint(endpoint.as_str())
            == normalized_move_endpoint(planned.as_str()),
        None => false,
    }
}

/// Whether a plan still holds, now that its endpoints are reserved.
pub fn revalidate(plan: &MovePlan, state: &ClusterState, live: &LiveRoute) -> (r: Result<
    bool,
    ShardError,
>)
    ensures
        match live@ {
            LiveView::Primary(endpoint) => r == Ok::<bool, ShardError>(
                plan_holds(plan@, state@, endpoint),
            ),
            _ => r == Err::<bool, ShardError>(
                ShardError::Config(
                    ConfigFault::LostLivePrimary { position: plan.expected.position as u64 },
                ),
            ),
        },
{
    let entry = match state.assignment(plan.expected.position) {
        Some(a) => a.primary == plan.expected.primary && a.replicas.len() == 0,
        None => false,
    };
    let endpoints = is_still_at(state.endpoint(plan.expected.primary), &plan.from_endpoint)
        && is_still_at(state.endpoint(plan.to), &plan.target_endpoint);
    match live {
        LiveRoute::Primary(now) => {
            let unmoved = normalized_move_endpoint(now.as_str()) == normalized_move_endpoint(
                plan.live_endpoint.as_str(),
            );
            Ok(entry && endpoints && unmoved)
        },
        _ => Err(
            ShardError::Config(
                ConfigFault::LostLivePrimary { position: plan.expected.position as u64 },
            ),
        ),
    }
}

// ---- The decision --------------------------------------------------------------------------

/// Why a transition is made.
#[derive(Clone, Copy, Debug, PartialEq, Eq, Structural)]
pub enum WorkKind {
    /// A third authority is live: the committed map first follows it, and the request is then
    /// planned anew.
    Chained,
    /// The target is already live: the committed map follows it.
    Reconcile,
    /// The data moves to the target.
    Move,
}

/// One durable transition of a reassignment.
#[derive(Debug, PartialEq, Eq)]
pub struct Work {
    pub kind: WorkKind,
    pub intent: MoveIntent,
    /// The endpoint of the committed source.
    pub source_endpoint: String,
    /// The endpoint that serves now.
    pub live_endpoint: String,
    /// The endpoint of the desired primary.
    pub desired_endpoint: String,
    pub generation: u64,
}

/// The view of `Work`.
#[verifier::ext_equal]
pub struct WorkView {
    pub kind: WorkKind,
    pub intent: IntentView,
    pub source_endpoint: Seq<char>,
    pub live_endpoint: Seq<char>,
    pub desired_endpoint: Seq<char>,
    pub generation: u64,
}

impl View for Work {
    type V = WorkView;

    open spec fn view(&self) -> WorkView {
        WorkView {
            kind: self.kind,
            intent: self.intent@,
            source_endpoint: self.source_endpoint@,
            live_endpoint: self.live_endpoint@,
            desired_endpoint: self.desired_endpoint@,
            generation: self.generation,
        }
    }
}

/// What a started reassignment does.
#[derive(Debug, PartialEq, Eq)]
pub enum Decision {
    NoChange { generation: u64 },
    Work(Work),
}

/// The view of `Decision`.
#[verifier::ext_equal]
pub enum DecisionView {
    NoChange { generation: u64 },
    Work(WorkView),
}

impl View for Decision {
    type V = DecisionView;

    open spec fn view(&self) -> DecisionView {
        match *self {
            Decision::NoChange { generation } => DecisionView::NoChange { generation },
            Decision::Work(work) => DecisionView::Work(work@),
        }
    }
}

/// The registered nodes whose endpoint has an identity, in the document's order.
pub open spec fn nodes_at(nodes: Seq<NodeView>, identity: Seq<char>) -> Seq<NodeId>
    decreases nodes.len(),
{
    if nodes.len() == 0 {
        Seq::empty()
    } else {
        let rest = nodes_at(nodes.drop_last(), identity);
        match nodes.last().addr {
            Some(endpoint) => if normalized(endpoint) == identity {
                rest.push(nodes.last().id)
            } else {
                rest
            },
            None => rest,
        }
    }
}

/// The assignment of a position to one node.
pub open spec fn bare(position: u32, primary: NodeId) -> AssignmentView {
    AssignmentView { position, primary, replicas: Seq::empty() }
}

/// The transition to `desired`, or the node that has no registered endpoint.
pub open spec fn work_result(
    state: ClusterStateView,
    plan: PlanView,
    kind: WorkKind,
    desired: NodeId,
    desired_endpoint: Seq<char>,
    generation: u64,
    source_fence_generation: u64,
) -> Result<DecisionView, ErrorView> {
    let target = bare(plan.expected.position, desired);
    match first_unregistered(state, transition_nodes(plan.expected, target), 0) {
        Some(node) => Err(
            ErrorView::Plain(ShardError::ControlPlane(ControlFault::MemberUnregistered { node })),
        ),
        None => Ok(
            DecisionView::Work(
                WorkView {
                    kind,
                    intent: planned_intent(
                        state,
                        plan.expected,
                        target,
                        generation,
                        source_fence_generation,
                        if kind is Move {
                            MoveInitialAuthority::Expected
                        } else {
                            MoveInitialAuthority::Desired
                        },
                    ),
                    source_endpoint: plan.from_endpoint,
                    live_endpoint: plan.live_endpoint,
                    desired_endpoint,
                    generation,
                },
            ),
        ),
    }
}

/// A transition to an authority that is already live.
pub open spec fn follow_result(
    state: ClusterStateView,
    plan: PlanView,
    kind: WorkKind,
    desired: NodeId,
    live: Seq<char>,
    generation: u64,
) -> Result<DecisionView, ErrorView> {
    match state.endpoint(plan.expected.primary) {
        None => Err(
            ErrorView::Plain(
                ShardError::ControlPlane(
                    ControlFault::MemberUnregistered { node: plan.expected.primary },
                ),
            ),
        ),
        Some(source) => work_result(
            state,
            plan,
            kind,
            desired,
            live,
            generation,
            live_authority_fence(source, live, generation),
        ),
    }
}

/// What a started reassignment does, given the route to the target and the generation that the
/// live primary serves at.
pub open spec fn decision_result(
    state: ClusterStateView,
    plan: PlanView,
    route: HandoffRoute,
    generation: u64,
) -> Result<DecisionView, ErrorView> {
    let position = plan.expected.position;
    let live = normalized(plan.live_endpoint);
    let committed = normalized(plan.from_endpoint);
    let target = normalized(plan.target_endpoint);
    let holders = nodes_at(state.nodes, live);
    if live != committed && live != target {
        if holders.len() == 0 {
            Err(ErrorView::LiveSourceUnregistered(plan.live_endpoint))
        } else if holders.len() > 1 {
            Err(ErrorView::LiveSourceAliased(plan.live_endpoint))
        } else {
            follow_result(
                state,
                plan,
                WorkKind::Chained,
                holders[0],
                plan.live_endpoint,
                generation,
            )
        }
    } else if plan.expected.primary == plan.to && committed == target {
        if has_key::<MoveIntent>(state.moves.intents, position as u64) {
            Err(
                ErrorView::Plain(
                    ShardError::ControlPlane(
                        ControlFault::UnresolvedIntent { position: position as u64 },
                    ),
                ),
            )
        } else {
            match route {
                HandoffRoute::AlreadyAtTarget { generation: since } => Ok(
                    DecisionView::NoChange { generation: since },
                ),
                HandoffRoute::Move => Err(
                    ErrorView::StillRoutes(position as u64, plan.live_endpoint),
                ),
            }
        }
    } else {
        match route {
            HandoffRoute::AlreadyAtTarget { generation: since } => follow_result(
                state,
                plan,
                WorkKind::Reconcile,
                plan.to,
                plan.target_endpoint,
                since,
            ),
            HandoffRoute::Move => work_result(
                state,
                plan,
                WorkKind::Move,
                plan.to,
                plan.target_endpoint,
                (generation + 1) as u64,
                (generation + 1) as u64,
            ),
        }
    }
}

fn find_nodes_at(nodes: &Vec<NodeDescriptor>, identity: &String) -> (r: Vec<NodeId>)
    ensures
        r@ == nodes_at(views(nodes@), identity@),
{
    let ghost all = views(nodes@);
    let mut found: Vec<NodeId> = Vec::new();
    let mut i: usize = 0;
    assert(found@ =~= nodes_at(all.take(0), identity@));
    while i < nodes.len()
        invariant
            i <= nodes.len(),
            all == views(nodes@),
            found@ == nodes_at(all.take(i as int), identity@),
        decreases nodes.len() - i,
    {
        assert(all.take(i + 1).drop_last() =~= all.take(i as int));
        assert(all.take(i + 1).last() == nodes@[i as int]@);
        match &nodes[i].addr {
            Some(endpoint) => {
                if normalized_move_endpoint(endpoint.as_str()) == *identity {
                    found.push(nodes[i].id);
                }
            },
            None => {},
        }
        i = i + 1;
    }
    assert(all.take(i as int) =~= all);
    found
}

fn bare_assignment(position: u32, primary: NodeId) -> (r: ShardAssignment)
    ensures
        r@ == bare(position, primary),
{
    let r = ShardAssignment { position, primary, replicas: Vec::new() };
    assert(r@.replicas =~= Seq::<NodeId>::empty());
    r
}

fn plan_work(
    state: &ClusterState,
    plan: &MovePlan,
    kind: WorkKind,
    desired: NodeId,
    desired_endpoint: &String,
    generation: u64,
    source_fence_generation: u64,
) -> (r: Result<Decision, ShardError>)
    ensures
        match r {
            Ok(decision) => work_result(
                state@,
                plan@,
                kind,
                desired,
                desired_endpoint@,
                generation,
                source_fence_generation,
            ) == Ok::<DecisionView, ErrorView>(decision@),
            Err(e) => work_result(
                state@,
                plan@,
                kind,
                desired,
                desired_endpoint@,
                generation,
                source_fence_generation,
            ) == Err::<DecisionView, ErrorView>(error_view(e)),
        },
{
    let authority = match kind {
        WorkKind::Move => MoveInitialAuthority::Expected,
        _ => MoveInitialAuthority::Desired,
    };
    match build_intent(
        state,
        plan.expected.clone(),
        bare_assignment(plan.expected.position, desired),
        generation,
        source_fence_generation,
        authority,
    ) {
        Ok(intent) => Ok(
            Decision::Work(
                Work {
                    kind,
                    intent,
                    source_endpoint: plan.from_endpoint.clone(),
                    live_endpoint: plan.live_endpoint.clone(),
                    desired_endpoint: desired_endpoint.clone(),
                    generation,
                },
            ),
        ),
        Err(e) => Err(e),
    }
}

fn plan_follow(
    state: &ClusterState,
    plan: &MovePlan,
    kind: WorkKind,
    desired: NodeId,
    live: &String,
    generation: u64,
) -> (r: Result<Decision, ShardError>)
    ensures
        match r {
            Ok(decision) => follow_result(state@, plan@, kind, desired, live@, generation) == Ok::<
                DecisionView,
                ErrorView,
            >(decision@),
            Err(e) => follow_result(state@, plan@, kind, desired, live@, generation) == Err::<
                DecisionView,
                ErrorView,
            >(error_view(e)),
        },
{
    match plan_live_authority_fence(state, &plan.expected, live.as_str(), generation) {
        Ok(fence) => plan_work(state, plan, kind, desired, live, generation, fence),
        Err(e) => Err(e),
    }
}

/// Decides what a started reassignment does.
pub fn decide(
    state: &ClusterState,
    plan: &MovePlan,
    route: HandoffRoute,
    generation: u64,
) -> (r: Result<Decision, ShardError>)
    requires
        generation < u64::MAX,
    ensures
        match r {
            Ok(decision) => decision_result(state@, plan@, route, generation) == Ok::<
                DecisionView,
                ErrorView,
            >(decision@),
            Err(e) => decision_result(state@, plan@, route, generation) == Err::<
                DecisionView,
                ErrorView,
            >(error_view(e)),
        },
{
    let position: u32 = plan.expected.position;
    let live = normalized_move_endpoint(plan.live_endpoint.as_str());
    let committed = normalized_move_endpoint(plan.from_endpoint.as_str());
    let target = normalized_move_endpoint(plan.target_endpoint.as_str());
    if live != committed && live != target {
        let holders = find_nodes_at(&state.nodes, &live);
        if holders.len() == 0 {
            return Err(
                ShardError::ControlPlane(
                    ControlFault::LiveSourceUnregistered { endpoint: plan.live_endpoint.clone() },
                ),
            );
        }
        if holders.len() > 1 {
            return Err(
                ShardError::ControlPlane(
                    ControlFault::LiveSourceAliased { endpoint: plan.live_endpoint.clone() },
                ),
            );
        }
        return plan_follow(
            state,
            plan,
            WorkKind::Chained,
            holders[0],
            &plan.live_endpoint,
            generation,
        );
    }
    if plan.expected.primary == plan.to && committed == target {
        if find_key(&state.moves.intents, position as u64).is_some() {
            return Err(
                ShardError::ControlPlane(
                    ControlFault::UnresolvedIntent { position: position as u64 },
                ),
            );
        }
        return match route {
            HandoffRoute::AlreadyAtTarget { generation: since } => Ok(
                Decision::NoChange { generation: since },
            ),
            HandoffRoute::Move => Err(
                ShardError::ControlPlane(
                    ControlFault::StillRoutes {
                        position: position as u64,
                        endpoint: plan.live_endpoint.clone(),
                    },
                ),
            ),
        };
    }
    match route {
        HandoffRoute::AlreadyAtTarget { generation: since } => plan_follow(
            state,
            plan,
            WorkKind::Reconcile,
            plan.to,
            &plan.target_endpoint,
            since,
        ),
        HandoffRoute::Move => plan_work(
            state,
            plan,
            WorkKind::Move,
            plan.to,
            &plan.target_endpoint,
            generation + 1,
            generation + 1,
        ),
    }
}

// ---- The steps -----------------------------------------------------------------------------

/// Where a reassignment stands.
#[derive(Debug, PartialEq, Eq)]
pub enum ReassignStage {
    /// Read the document and the live route.
    Plan,
    /// Reserve the endpoints of the plan.
    Reserve(MovePlan),
    /// Read the document and the live route again.
    Revalidate(MovePlan),
    /// See what lies between the live primary and the target.
    Route(MovePlan, ClusterState),
    /// Ask whether to start.
    Gate(MovePlan, ClusterState, HandoffRoute, u64),
    /// Persist the intent.
    Begin(Work),
    /// Fence the committed source of an authority that is already live.
    Fence(Work),
    /// Attest the authority that is already live.
    Attest(Work),
    /// Recover the target, fence the source and drain it.
    Handoff(Work),
    /// Attest the target that was prepared under the source's fence, at this generation.
    Measure(Work, u64),
    /// Record the evidence.
    MarkReady(Work, MoveRecoveryEvidence),
    /// Install the desired assignment.
    Commit(Work),
    /// Let live routing follow.
    Swap(Work),
    /// Drop the intent.
    Finish(Work),
    /// See whether the source of a failed move is free again.
    Probe(Work, ShardError),
    /// Discard the intent of a move that failed cleanly.
    Abort(Work, ShardError),
    /// The end. `None` says that nothing was started.
    Done(Result<Option<ReassignOutcome>, ShardError>),
}

/// The view of `ReassignStage`.
#[verifier::ext_equal]
pub enum StageView {
    Plan,
    Reserve(PlanView),
    Revalidate(PlanView),
    Route(PlanView, ClusterStateView),
    Gate(PlanView, ClusterStateView, HandoffRoute, u64),
    Begin(WorkView),
    Fence(WorkView),
    Attest(WorkView),
    Handoff(WorkView),
    Measure(WorkView, u64),
    MarkReady(WorkView, EvidenceView),
    Commit(WorkView),
    Swap(WorkView),
    Finish(WorkView),
    Probe(WorkView, ErrorView),
    Abort(WorkView, ErrorView),
    Done(Result<Option<ReassignOutcome>, ErrorView>),
}

impl View for ReassignStage {
    type V = StageView;

    open spec fn view(&self) -> StageView {
        match *self {
            ReassignStage::Plan => StageView::Plan,
            ReassignStage::Reserve(plan) => StageView::Reserve(plan@),
            ReassignStage::Revalidate(plan) => StageView::Revalidate(plan@),
            ReassignStage::Route(plan, state) => StageView::Route(plan@, state@),
            ReassignStage::Gate(plan, state, route, generation) => StageView::Gate(
                plan@,
                state@,
                route,
                generation,
            ),
            ReassignStage::Begin(work) => StageView::Begin(work@),
            ReassignStage::Fence(work) => StageView::Fence(work@),
            ReassignStage::Attest(work) => StageView::Attest(work@),
            ReassignStage::Handoff(work) => StageView::Handoff(work@),
            ReassignStage::Measure(work, generation) => StageView::Measure(work@, generation),
            ReassignStage::MarkReady(work, evidence) => StageView::MarkReady(work@, evidence@),
            ReassignStage::Commit(work) => StageView::Commit(work@),
            ReassignStage::Swap(work) => StageView::Swap(work@),
            ReassignStage::Finish(work) => StageView::Finish(work@),
            ReassignStage::Probe(work, e) => StageView::Probe(work@, error_view(e)),
            ReassignStage::Abort(work, e) => StageView::Abort(work@, error_view(e)),
            ReassignStage::Done(Ok(outcome)) => StageView::Done(Ok(outcome)),
            ReassignStage::Done(Err(e)) => StageView::Done(Err(error_view(e))),
        }
    }
}

/// What the caller has to do next.
#[derive(Debug, PartialEq, Eq)]
pub enum ReassignAction {
    /// Give up any reservation, then read the document and the live route of the position.
    Plan,
    /// Reserve the endpoints; `bounded` says whether the caller's deadline applies.
    Reserve { endpoints: Vec<String>, bounded: bool },
    /// Read the document and the live route of the position, holding the reservation.
    Revalidate,
    /// Validate the handoff between two endpoints.
    Route { live: String, target: String },
    /// Ask whether to start.
    TryStart,
    /// Propose a command to the control plane.
    Propose { command: MoveCommand, context: String },
    /// Fence the member at the endpoint at a generation; zero only asks.
    Fence { node: NodeId, endpoint: String, generation: u64 },
    /// Take the content fingerprint of the member at the endpoint.
    Attest { node: NodeId, endpoint: String },
    /// Recover the target from the source, fence the source and drain it.
    Handoff { from: String, to: String },
    /// Let live routing follow to the prepared target.
    Swap,
    /// Ask the endpoint for its fence.
    Probe { endpoint: String },
    /// Nothing more; any reservation may be given up.
    Finished,
}

/// The view of `ReassignAction`.
#[verifier::ext_equal]
pub enum ReassignActionView {
    Plan,
    Reserve { endpoints: Seq<Seq<char>>, bounded: bool },
    Revalidate,
    Route { live: Seq<char>, target: Seq<char> },
    TryStart,
    Propose { command: CommandView, context: Seq<char> },
    Fence { node: NodeId, endpoint: Seq<char>, generation: u64 },
    Attest { node: NodeId, endpoint: Seq<char> },
    Handoff { from: Seq<char>, to: Seq<char> },
    Swap,
    Probe { endpoint: Seq<char> },
    Finished,
}

impl View for ReassignAction {
    type V = ReassignActionView;

    open spec fn view(&self) -> ReassignActionView {
        match *self {
            ReassignAction::Plan => ReassignActionView::Plan,
            ReassignAction::Reserve { endpoints, bounded } => ReassignActionView::Reserve {
                endpoints: views(endpoints@),
                bounded,
            },
            ReassignAction::Revalidate => ReassignActionView::Revalidate,
            ReassignAction::Route { live, target } => ReassignActionView::Route {
                live: live@,
                target: target@,
            },
            ReassignAction::TryStart => ReassignActionView::TryStart,
            ReassignAction::Propose { command, context } => ReassignActionView::Propose {
                command: command@,
                context: context@,
            },
            ReassignAction::Fence { node, endpoint, generation } => ReassignActionView::Fence {
                node,
                endpoint: endpoint@,
                generation,
            },
            ReassignAction::Attest { node, endpoint } => ReassignActionView::Attest {
                node,
                endpoint: endpoint@,
            },
            ReassignAction::Handoff { from, to } => ReassignActionView::Handoff {
                from: from@,
                to: to@,
            },
            ReassignAction::Swap => ReassignActionView::Swap,
            ReassignAction::Probe { endpoint } => ReassignActionView::Probe {
                endpoint: endpoint@,
            },
            ReassignAction::Finished => ReassignActionView::Finished,
        }
    }
}

/// What came of an action.
#[derive(Debug, PartialEq, Eq)]
pub enum ReassignEvent {
    /// A read of the document and of the live route.
    Control { state: ClusterState, live: LiveRoute },
    /// The endpoints are reserved.
    Reserved,
    /// They could not be reserved in time.
    TimedOut,
    /// The route to the target, and the generation that the live primary serves at.
    Route { route: HandoffRoute, generation: u64 },
    /// Whether to start.
    Started(bool),
    /// The command is in force.
    Accepted,
    /// The fence that the member has.
    Fence(u64),
    /// The content of the member.
    Fingerprint { fingerprint_lo: u64, fingerprint_hi: u64, live_count: u64 },
    /// The target is complete under the source's fence, at this generation.
    Prepared { generation: u64 },
    /// Live routing follows, at this generation.
    Swapped { generation: u64 },
    /// The action failed.
    Failed(ShardError),
}

/// The view of `ReassignEvent`.
#[verifier::ext_equal]
pub enum EventView {
    Control { state: ClusterStateView, live: LiveView },
    Reserved,
    TimedOut,
    Route { route: HandoffRoute, generation: u64 },
    Started(bool),
    Accepted,
    Fence(u64),
    Fingerprint { fingerprint_lo: u64, fingerprint_hi: u64, live_count: u64 },
    Prepared { generation: u64 },
    Swapped { generation: u64 },
    Failed(ErrorView),
}

impl View for ReassignEvent {
    type V = EventView;

    open spec fn view(&self) -> EventView {
        match *self {
            ReassignEvent::Control { state, live } => EventView::Control {
                state: state@,
                live: live@,
            },
            ReassignEvent::Reserved => EventView::Reserved,
            ReassignEvent::TimedOut => EventView::TimedOut,
            ReassignEvent::Route { route, generation } => EventView::Route { route, generation },
            ReassignEvent::Started(started) => EventView::Started(started),
            ReassignEvent::Accepted => EventView::Accepted,
            ReassignEvent::Fence(generation) => EventView::Fence(generation),
            ReassignEvent::Fingerprint { fingerprint_lo, fingerprint_hi, live_count } =>
                EventView::Fingerprint { fingerprint_lo, fingerprint_hi, live_count },
            ReassignEvent::Prepared { generation } => EventView::Prepared { generation },
            ReassignEvent::Swapped { generation } => EventView::Swapped { generation },
            ReassignEvent::Failed(e) => EventView::Failed(error_view(e)),
        }
    }
}

/// The view of `Reassign`.
#[verifier::ext_equal]
pub struct ReassignView {
    pub position: u32,
    pub to: NodeId,
    /// How many plans were given up.
    pub attempt: u32,
    /// The start was allowed; nothing can be declined any more.
    pub started: bool,
    pub stage: StageView,
}

/// A reassignment under way.
pub struct Reassign {
    position: u32,
    to: NodeId,
    attempt: u32,
    started: bool,
    stage: ReassignStage,
}

impl View for Reassign {
    type V = ReassignView;

    closed spec fn view(&self) -> ReassignView {
        ReassignView {
            position: self.position,
            to: self.to,
            attempt: self.attempt,
            started: self.started,
            stage: self.stage@,
        }
    }
}

/// The evidence of the one desired member.
pub open spec fn single_evidence(
    live_generation: u64,
    node: NodeId,
    fingerprint_lo: u64,
    fingerprint_hi: u64,
    live_count: u64,
) -> EvidenceView {
    EvidenceView {
        live_generation,
        members: seq![MoveMemberEvidence { node, fingerprint_lo, fingerprint_hi, live_count }],
    }
}

/// The reassignment in another stage.
pub open spec fn moved_on(r: ReassignView, stage: StageView) -> ReassignView {
    ReassignView { stage, ..r }
}

/// The reassignment at its end, with an error.
pub open spec fn failed(r: ReassignView, e: ErrorView) -> ReassignView {
    moved_on(r, StageView::Done(Err(e)))
}

/// The stage after the intent is dropped: a request that first had to follow a third authority
/// is planned anew, and the others are through.
pub open spec fn after_finish(r: ReassignView, work: WorkView) -> ReassignView {
    match work.kind {
        WorkKind::Chained => ReassignView { attempt: 0, stage: StageView::Plan, ..r },
        WorkKind::Reconcile => moved_on(
            r,
            StageView::Done(
                Ok(
                    Some(
                        ReassignOutcome::Reconciled {
                            position: r.position,
                            from: work.intent.expected.primary,
                            to: r.to,
                            generation: work.generation,
                        },
                    ),
                ),
            ),
        ),
        WorkKind::Move => moved_on(
            r,
            StageView::Done(
                Ok(
                    Some(
                        ReassignOutcome::Moved {
                            position: r.position,
                            from: work.intent.expected.primary,
                            to: r.to,
                            generation: work.generation,
                        },
                    ),
                ),
            ),
        ),
    }
}

/// The stage in which a started reassignment acts on its decision.
pub open spec fn decided_stage(
    position: u32,
    plan: PlanView,
    state: ClusterStateView,
    route: HandoffRoute,
    generation: u64,
) -> StageView {
    match decision_result(state, plan, route, generation) {
        Ok(DecisionView::NoChange { generation: since }) => StageView::Done(
            Ok(Some(ReassignOutcome::NoChange { position, generation: since })),
        ),
        Ok(DecisionView::Work(work)) => StageView::Begin(work),
        Err(e) => StageView::Done(Err(e)),
    }
}

/// A started reassignment acts on its decision.
pub open spec fn act(
    r: ReassignView,
    plan: PlanView,
    state: ClusterStateView,
    route: HandoffRoute,
    generation: u64,
) -> ReassignView {
    ReassignView {
        started: true,
        stage: decided_stage(r.position, plan, state, route, generation),
        ..r
    }
}

/// What an answer leads to. An answer that does not belong to the stage changes nothing.
pub open spec fn reassign_step(r: ReassignView, event: EventView) -> ReassignView {
    match (r.stage, event) {
        (StageView::Plan, EventView::Control { state, live }) => match plan_result(
            state,
            r.position,
            r.to,
            live,
        ) {
            Ok(plan) => moved_on(r, StageView::Reserve(plan)),
            Err(e) => failed(r, ErrorView::Plain(e)),
        },
        (StageView::Reserve(plan), EventView::Reserved) => moved_on(
            r,
            StageView::Revalidate(plan),
        ),
        (StageView::Reserve(_), EventView::TimedOut) => if r.started {
            failed(r, ErrorView::Plain(ShardError::DeadlineExceeded))
        } else {
            moved_on(r, StageView::Done(Ok(None)))
        },
        (StageView::Revalidate(plan), EventView::Control { state, live }) => match live {
            LiveView::Primary(endpoint) => if plan_holds(plan, state, endpoint) {
                moved_on(r, StageView::Route(plan, state))
            } else if r.attempt + 1 < PLAN_ATTEMPTS {
                ReassignView { attempt: (r.attempt + 1) as u32, stage: StageView::Plan, ..r }
            } else {
                failed(
                    r,
                    ErrorView::Plain(
                        ShardError::ControlPlane(
                            ControlFault::PlanChurning { position: r.position as u64 },
                        ),
                    ),
                )
            },
            _ => failed(
                r,
                ErrorView::Plain(
                    ShardError::Config(
                        ConfigFault::LostLivePrimary {
                            position: plan.expected.position as u64,
                        },
                    ),
                ),
            ),
        },
        (StageView::Route(plan, state), EventView::Route { route, generation }) => if r.started {
            act(r, plan, state, route, generation)
        } else {
            moved_on(r, StageView::Gate(plan, state, route, generation))
        },
        (StageView::Gate(plan, state, route, generation), EventView::Started(go)) => if go {
            act(r, plan, state, route, generation)
        } else {
            moved_on(r, StageView::Done(Ok(None)))
        },
        (StageView::Begin(work), EventView::Accepted) => moved_on(
            r,
            if work.kind is Move {
                StageView::Handoff(work)
            } else {
                StageView::Fence(work)
            },
        ),
        (StageView::Fence(work), EventView::Fence(generation)) => if generation
            == work.intent.source_fence_generation {
            moved_on(r, StageView::Attest(work))
        } else {
            failed(
                r,
                ErrorView::Plain(
                    ShardError::ControlPlane(
                        ControlFault::SourceFence {
                            operation_id: work.intent.operation_id,
                            expected: work.intent.source_fence_generation,
                            observed: generation,
                        },
                    ),
                ),
            )
        },
        (
            StageView::Attest(work),
            EventView::Fingerprint { fingerprint_lo, fingerprint_hi, live_count },
        ) => moved_on(
            r,
            StageView::MarkReady(
                work,
                single_evidence(
                    work.intent.live_generation,
                    work.intent.desired.primary,
                    fingerprint_lo,
                    fingerprint_hi,
                    live_count,
                ),
            ),
        ),
        (StageView::Handoff(work), EventView::Prepared { generation }) => moved_on(
            r,
            StageView::Measure(work, generation),
        ),
        (
            StageView::Measure(work, generation),
            EventView::Fingerprint { fingerprint_lo, fingerprint_hi, live_count },
        ) => moved_on(
            r,
            StageView::MarkReady(
                work,
                single_evidence(
                    generation,
                    work.intent.desired.primary,
                    fingerprint_lo,
                    fingerprint_hi,
                    live_count,
                ),
            ),
        ),
        (StageView::MarkReady(work, _), EventView::Accepted) => moved_on(
            r,
            StageView::Commit(work),
        ),
        (StageView::Commit(work), EventView::Accepted) => moved_on(
            r,
            if work.kind is Move {
                StageView::Swap(work)
            } else {
                StageView::Finish(work)
            },
        ),
        (StageView::Swap(work), EventView::Swapped { generation }) => moved_on(
            r,
            StageView::Finish(WorkView { generation, ..work }),
        ),
        (StageView::Finish(work), EventView::Accepted) => after_finish(r, work),
        (StageView::Probe(work, e), EventView::Fence(generation)) => if generation == 0 {
            moved_on(r, StageView::Abort(work, e))
        } else {
            failed(r, e)
        },
        (StageView::Probe(_, e), EventView::Failed(_)) => failed(r, e),
        (StageView::Abort(_, e), EventView::Accepted) => failed(r, e),
        (StageView::Abort(_, e), EventView::Failed(_)) => failed(r, e),
        (StageView::Handoff(work), EventView::Failed(e)) => moved_on(r, StageView::Probe(work, e)),
        (StageView::Done(_), EventView::Failed(_)) => r,
        (_, EventView::Failed(e)) => failed(r, e),
        _ => r,
    }
}

/// What a stage asks for.
pub open spec fn reassign_action(r: ReassignView) -> ReassignActionView {
    match r.stage {
        StageView::Plan => ReassignActionView::Plan,
        StageView::Reserve(plan) => ReassignActionView::Reserve {
            endpoints: seq![plan.from_endpoint, plan.live_endpoint, plan.target_endpoint],
            bounded: !r.started,
        },
        StageView::Revalidate(_) => ReassignActionView::Revalidate,
        StageView::Route(plan, _) => ReassignActionView::Route {
            live: plan.live_endpoint,
            target: plan.target_endpoint,
        },
        StageView::Gate(..) => ReassignActionView::TryStart,
        StageView::Begin(work) => ReassignActionView::Propose {
            command: CommandView::Begin(work.intent),
            context: if work.kind is Chained {
                "reassign_and_move: persist chained-source reconciliation"@
            } else {
                "reassign_and_move: persist intent"@
            },
        },
        StageView::Fence(work) => ReassignActionView::Fence {
            node: work.intent.expected.primary,
            endpoint: work.source_endpoint,
            generation: work.intent.source_fence_generation,
        },
        StageView::Attest(work) => ReassignActionView::Attest {
            node: work.intent.desired.primary,
            endpoint: work.desired_endpoint,
        },
        StageView::Handoff(work) => ReassignActionView::Handoff {
            from: work.live_endpoint,
            to: work.desired_endpoint,
        },
        StageView::Measure(work, _) => ReassignActionView::Attest {
            node: work.intent.desired.primary,
            endpoint: work.desired_endpoint,
        },
        StageView::MarkReady(work, evidence) => ReassignActionView::Propose {
            command: CommandView::MarkReady { operation_id: work.intent.operation_id, evidence },
            context: ready_context(work.kind),
        },
        StageView::Commit(work) => ReassignActionView::Propose {
            command: CommandView::Commit { operation_id: work.intent.operation_id },
            context: commit_context(work.kind),
        },
        StageView::Swap(_) => ReassignActionView::Swap,
        StageView::Finish(work) => ReassignActionView::Propose {
            command: CommandView::Finish { operation_id: work.intent.operation_id },
            context: if work.kind is Chained {
                "reassign_and_move: finish chained-source reconciliation"@
            } else {
                "reassign_and_move: finish durable move"@
            },
        },
        StageView::Probe(work, _) => ReassignActionView::Probe { endpoint: work.live_endpoint },
        StageView::Abort(work, _) => ReassignActionView::Propose {
            command: CommandView::Abort { operation_id: work.intent.operation_id },
            context: "reassign_and_move: abort clean preparation"@,
        },
        StageView::Done(_) => ReassignActionView::Finished,
    }
}

/// What an operator is told about recording the evidence.
pub open spec fn ready_context(kind: WorkKind) -> Seq<char> {
    match kind {
        WorkKind::Chained => "reassign_and_move: commit chained live source"@,
        WorkKind::Reconcile => "reassign_and_move: commit already-live target"@,
        WorkKind::Move => "reassign_and_move: persist target evidence"@,
    }
}

/// What an operator is told about the commit.
pub open spec fn commit_context(kind: WorkKind) -> Seq<char> {
    match kind {
        WorkKind::Chained => "reassign_and_move: commit chained live source"@,
        WorkKind::Reconcile => "reassign_and_move: commit already-live target"@,
        WorkKind::Move => "reassign_and_move: conditional assignment commit"@,
    }
}

fn one_member_evidence(
    live_generation: u64,
    node: NodeId,
    fingerprint_lo: u64,
    fingerprint_hi: u64,
    live_count: u64,
) -> (r: MoveRecoveryEvidence)
    ensures
        r@ == single_evidence(live_generation, node, fingerprint_lo, fingerprint_hi, live_count),
{
    let mut members: Vec<MoveMemberEvidence> = Vec::new();
    members.push(member_evidence(node, fingerprint_lo, fingerprint_hi, live_count));
    proof {
        let one = members@;
        assert(one =~= seq![one[0]]);
        assert(one.drop_last() =~= Seq::<MoveMemberEvidence>::empty());
        assert(sorted_by_key::<MoveMemberEvidence>(one.drop_last()) =~= Seq::<
            MoveMemberEvidence,
        >::empty());
        assert(sorted_by_key::<MoveMemberEvidence>(one) =~= seq![one[0]]);
    }
    recovery_evidence(live_generation, members)
}

fn ready_text(kind: WorkKind) -> (r: String)
    ensures
        r@ == ready_context(kind),
{
    match kind {
        WorkKind::Chained => "reassign_and_move: commit chained live source".to_owned(),
        WorkKind::Reconcile => "reassign_and_move: commit already-live target".to_owned(),
        WorkKind::Move => "reassign_and_move: persist target evidence".to_owned(),
    }
}

fn commit_text(kind: WorkKind) -> (r: String)
    ensures
        r@ == commit_context(kind),
{
    match kind {
        WorkKind::Chained => "reassign_and_move: commit chained live source".to_owned(),
        WorkKind::Reconcile => "reassign_and_move: commit already-live target".to_owned(),
        WorkKind::Move => "reassign_and_move: conditional assignment commit".to_owned(),
    }
}

/// Live routing can only be moved on where its generation can still be counted.
pub open spec fn countable(event: EventView) -> bool {
    event matches EventView::Route { generation, .. } ==> generation < u64::MAX
}

/// A generation that is kept for the decision can still be counted on.
spec fn stage_countable(stage: StageView) -> bool {
    stage matches StageView::Gate(_, _, _, generation) ==> generation < u64::MAX
}

impl Reassign {
    #[verifier::type_invariant]
    spec fn stays_countable(self) -> bool {
        stage_countable(self.stage@)
    }

    /// A reassignment of a position to a node.
    pub fn reassign_and_move(position: usize, to: NodeId) -> (r: Result<Self, ShardError>)
        ensures
            match r {
                Ok(reassign) => {
                    &&& position <= u32::MAX
                    &&& reassign@ == (ReassignView {
                        position: position as u32,
                        to,
                        attempt: 0,
                        started: false,
                        stage: StageView::Plan,
                    })
                },
                Err(e) => {
                    &&& position > u32::MAX
                    &&& e == ShardError::Config(
                        ConfigFault::PositionTooLarge { position: position as u64 },
                    )
                },
            },
    {
        if position > u32::MAX as usize {
            return Err(
                ShardError::Config(ConfigFault::PositionTooLarge { position: position as u64 }),
            );
        }
        Ok(
            Reassign {
                position: position as u32,
                to,
                attempt: 0,
                started: false,
                stage: ReassignStage::Plan,
            },
        )
    }

    /// What to do next.
    pub fn action(&self) -> (r: ReassignAction)
        ensures
            r@ == reassign_action(self@),
    {
        match &self.stage {
            ReassignStage::Plan => ReassignAction::Plan,
            ReassignStage::Reserve(plan) => {
                let mut endpoints: Vec<String> = Vec::new();
                endpoints.push(plan.from_endpoint.clone());
                endpoints.push(plan.live_endpoint.clone());
                endpoints.push(plan.target_endpoint.clone());
                assert(views(endpoints@) =~= seq![
                    plan.from_endpoint@,
                    plan.live_endpoint@,
                    plan.target_endpoint@,
                ]);
                ReassignAction::Reserve { endpoints, bounded: !self.started }
            },
            ReassignStage::Revalidate(_) => ReassignAction::Revalidate,
            ReassignStage::Route(plan, _) => ReassignAction::Route {
                live: plan.live_endpoint.clone(),
                target: plan.target_endpoint.clone(),
            },
            ReassignStage::Gate(_, _, _, _) => ReassignAction::TryStart,
            ReassignStage::Begin(work) => {
                let context = match work.kind {
                    WorkKind::Chained =>
                        "reassign_and_move: persist chained-source reconciliation".to_owned(),
                    _ => "reassign_and_move: persist intent".to_owned(),
                };
                ReassignAction::Propose {
                    command: MoveCommand::Begin(work.intent.clone()),
                    context,
                }
            },
            ReassignStage::Fence(work) => ReassignAction::Fence {
                node: work.intent.expected.primary,
                endpoint: work.source_endpoint.clone(),
                generation: work.intent.source_fence_generation,
            },
            ReassignStage::Attest(work) => ReassignAction::Attest {
                node: work.intent.desired.primary,
                endpoint: work.desired_endpoint.clone(),
            },
            ReassignStage::Handoff(work) => ReassignAction::Handoff {
                from: work.live_endpoint.clone(),
                to: work.desired_endpoint.clone(),
            },
            ReassignStage::Measure(work, _) => ReassignAction::Attest {
                node: work.intent.desired.primary,
                endpoint: work.desired_endpoint.clone(),
            },
            ReassignStage::MarkReady(work, evidence) => ReassignAction::Propose {
                command: MoveCommand::MarkReady {
                    operation_id: work.intent.operation_id,
                    evidence: evidence.clone(),
                },
                context: ready_text(work.kind),
            },
            ReassignStage::Commit(work) => ReassignAction::Propose {
                command: MoveCommand::Commit { operation_id: work.intent.operation_id },
                context: commit_text(work.kind),
            },
            ReassignStage::Swap(_) => ReassignAction::Swap,
            ReassignStage::Finish(work) => {
                let context = match work.kind {
                    WorkKind::Chained =>
                        "reassign_and_move: finish chained-source reconciliation".to_owned(),
                    _ => "reassign_and_move: finish durable move".to_owned(),
                };
                ReassignAction::Propose {
                    command: MoveCommand::Finish { operation_id: work.intent.operation_id },
                    context,
                }
            },
            ReassignStage::Probe(work, _) => ReassignAction::Probe {
                endpoint: work.live_endpoint.clone(),
            },
            ReassignStage::Abort(work, _) => ReassignAction::Propose {
                command: MoveCommand::Abort { operation_id: work.intent.operation_id },
                context: "reassign_and_move: abort clean preparation".to_owned(),
            },
            ReassignStage::Done(_) => ReassignAction::Finished,
        }
    }

    fn decided(
        position: u32,
        plan: MovePlan,
        state: ClusterState,
        route: HandoffRoute,
        generation: u64,
    ) -> (r: ReassignStage)
        requires
            generation < u64::MAX,
        ensures
            r@ == decided_stage(position, plan@, state@, route, generation),
    {
        match decide(&state, &plan, route, generation) {
            Ok(Decision::NoChange { generation: since }) => ReassignStage::Done(
                Ok(Some(ReassignOutcome::NoChange { position, generation: since })),
            ),
            Ok(Decision::Work(work)) => ReassignStage::Begin(work),
            Err(e) => ReassignStage::Done(Err(e)),
        }
    }

    /// Decides on the answer to the last action.
    pub fn advance(self, event: ReassignEvent) -> (r: Self)
        requires
            countable(event@),
        ensures
            r@ == reassign_step(self@, event@),
    {
        proof {
            use_type_invariant(&self);
        }
        let position: u32 = self.position;
        let to = self.to;
        let (attempt, started, stage) = Self::answered(
            position,
            to,
            self.attempt,
            self.started,
            self.stage,
            event,
        );
        Reassign { position, to, attempt, started, stage }
    }

    /// The plans given up, the start and the stage after an answer.
    fn answered(
        position: u32,
        to: NodeId,
        attempt: u32,
        started: bool,
        stage: ReassignStage,
        event: ReassignEvent,
    ) -> (r: (u32, bool, ReassignStage))
        requires
            countable(event@),
            stage_countable(stage@),
        ensures
            stage_countable(r.2@),
            reassign_step(
                ReassignView { position, to, attempt, started, stage: stage@ },
                event@,
            ) == (ReassignView { position, to, attempt: r.0, started: r.1, stage: r.2@ }),
    {
        let mut attempt: u32 = attempt;
        let mut started: bool = started;
        let stage = match (stage, event) {
            (ReassignStage::Plan, ReassignEvent::Control { state, live }) => {
                match plan_reassign(&state, position, to, &live) {
                    Ok(plan) => ReassignStage::Reserve(plan),
                    Err(e) => ReassignStage::Done(Err(e)),
                }
            },
            (ReassignStage::Reserve(plan), ReassignEvent::Reserved) => {
                ReassignStage::Revalidate(plan)
            },
            (ReassignStage::Reserve(_), ReassignEvent::TimedOut) => {
                if started {
                    ReassignStage::Done(Err(ShardError::DeadlineExceeded))
                } else {
                    ReassignStage::Done(Ok(None))
                }
            },
            (ReassignStage::Revalidate(plan), ReassignEvent::Control { state, live }) => {
                match revalidate(&plan, &state, &live) {
                    Ok(true) => ReassignStage::Route(plan, state),
                    Ok(false) => {
                        if attempt < PLAN_ATTEMPTS - 1 {
                            attempt = attempt + 1;
                            ReassignStage::Plan
                        } else {
                            ReassignStage::Done(
                                Err(
                                    ShardError::ControlPlane(
                                        ControlFault::PlanChurning { position: position as u64 },
                                    ),
                                ),
                            )
                        }
                    },
                    Err(e) => ReassignStage::Done(Err(e)),
                }
            },
            (ReassignStage::Route(plan, state), ReassignEvent::Route { route, generation }) => {
                if started {
                    Self::decided(position, plan, state, route, generation)
                } else {
                    ReassignStage::Gate(plan, state, route, generation)
                }
            },
            (ReassignStage::Gate(plan, state, route, generation), ReassignEvent::Started(go)) => {
                if go {
                    started = true;
                    Self::decided(position, plan, state, route, generation)
                } else {
                    ReassignStage::Done(Ok(None))
                }
            },
            (ReassignStage::Begin(work), ReassignEvent::Accepted) => match work.kind {
                WorkKind::Move => ReassignStage::Handoff(work),
                _ => ReassignStage::Fence(work),
            },
            (ReassignStage::Fence(work), ReassignEvent::Fence(generation)) => {
                if generation == work.intent.source_fence_generation {
                    ReassignStage::Attest(work)
                } else {
                    ReassignStage::Done(
                        Err(
                            ShardError::ControlPlane(
                                ControlFault::SourceFence {
                                    operation_id: work.intent.operation_id,
                                    expected: work.intent.source_fence_generation,
                                    observed: generation,
                                },
                            ),
                        ),
                    )
                }
            },
            (
                ReassignStage::Attest(work),
                ReassignEvent::Fingerprint { fingerprint_lo, fingerprint_hi, live_count },
            ) => {
                let evidence = one_member_evidence(
                    work.intent.live_generation,
                    work.intent.desired.primary,
                    fingerprint_lo,
                    fingerprint_hi,
                    live_count,
                );
                ReassignStage::MarkReady(work, evidence)
            },
            (ReassignStage::Handoff(work), ReassignEvent::Prepared { generation }) => {
                ReassignStage::Measure(work, generation)
            },
            (
                ReassignStage::Measure(work, generation),
                ReassignEvent::Fingerprint { fingerprint_lo, fingerprint_hi, live_count },
            ) => {
                let evidence = one_member_evidence(
                    generation,
                    work.intent.desired.primary,
                    fingerprint_lo,
                    fingerprint_hi,
                    live_count,
                );
                ReassignStage::MarkReady(work, evidence)
            },
            (ReassignStage::MarkReady(work, _), ReassignEvent::Accepted) => {
                ReassignStage::Commit(work)
            },
            (ReassignStage::Commit(work), ReassignEvent::Accepted) => match work.kind {
                WorkKind::Move => ReassignStage::Swap(work),
                _ => ReassignStage::Finish(work),
            },
            (ReassignStage::Swap(work), ReassignEvent::Swapped { generation }) => {
                let mut work = work;
                work.generation = generation;
                ReassignStage::Finish(work)
            },
            (ReassignStage::Finish(work), ReassignEvent::Accepted) => {
                let from = work.intent.expected.primary;
                let generation: u64 = work.generation;
                match work.kind {
                    WorkKind::Chained => {
                        attempt = 0;
                        ReassignStage::Plan
                    },
                    WorkKind::Reconcile => ReassignStage::Done(
                        Ok(
                            Some(
                                ReassignOutcome::Reconciled { position, from, to, generation },
                            ),
                        ),
                    ),
                    WorkKind::Move => ReassignStage::Done(
                        Ok(Some(ReassignOutcome::Moved { position, from, to, generation })),
                    ),
                }
            },
            (ReassignStage::Probe(work, e), ReassignEvent::Fence(generation)) => {
                if generation == 0 {
                    ReassignStage::Abort(work, e)
                } else {
                    ReassignStage::Done(Err(e))
                }
            },
            (ReassignStage::Probe(_, e), ReassignEvent::Failed(_)) => {
                ReassignStage::Done(Err(e))
            },
            (ReassignStage::Abort(_, e), ReassignEvent::Accepted) => ReassignStage::Done(Err(e)),
            (ReassignStage::Abort(_, e), ReassignEvent::Failed(_)) => ReassignStage::Done(Err(e)),
            (ReassignStage::Handoff(work), ReassignEvent::Failed(e)) => {
                ReassignStage::Probe(work, e)
            },
            (ReassignStage::Done(result), ReassignEvent::Failed(_)) => {
                ReassignStage::Done(result)
            },
            (_, ReassignEvent::Failed(e)) => ReassignStage::Done(Err(e)),
            (stage, _) => stage,
        };
        (attempt, started, stage)
    }

    /// The outcome, once there is nothing more to do; `None` inside says that nothing was
    /// started.
    pub fn finish(self) -> (r: Option<Result<Option<ReassignOutcome>, ShardError>>)
        ensures
            match self@.stage {
                StageView::Done(Ok(outcome)) => r == Some(
                    Ok::<Option<ReassignOutcome>, ShardError>(outcome),
                ),
                StageView::Done(Err(e)) => r matches Some(Err(error)) && error_view(error) == e,
                _ => r is None,
            },
    {
        match self.stage {
            ReassignStage::Done(result) => Some(result),
            _ => None,
        }
    }
}

} // verus!
