//! What a reassignment plans and decides, read off the tables: for which positions there is a
//! plan, when it still holds, and which transition is begun.

use vstd::prelude::*;

use crate::document::{
    AssignmentView, ClusterStateView, MoveInitialAuthority, MoveIntent, NodeId, NodeView,
    ShardAssignment,
};
use crate::document_laws::{
    is_placed, is_registered, lemma_reads, members_are_the_named, names, tables_in_order,
};
use crate::error::{ConfigFault, ControlFault, ShardError};
use crate::intent_laws::{
    lemma_live_fence, lemma_one_slot, lemma_plannable, lemma_planned, one_slot, unregistered,
};
use crate::keyed::{Keyed, has_key, lemma_found};
use crate::reassign::{
    DecisionView, ErrorView, HandoffRoute, LiveView, PlanView, WorkKind, WorkView, bare,
    decision_result, follow_result, nodes_at, plan_holds, plan_result, work_result,
};
use crate::text::normalized;

verus! {

// ---- The plan ------------------------------------------------------------------------------

/// There is a plan exactly for a position that is placed on one node alone, where that node and
/// the target are registered and something serves the position; and the plan is of what the
/// tables have. Otherwise the first of these that fails is named: so a replicated position is
/// refused, with the number of its replicas, whatever else holds.
#[verifier::spinoff_prover]
pub proof fn lemma_plan_decides(
    state: ClusterStateView,
    position: u32,
    to: NodeId,
    live: LiveView,
    assignment: AssignmentView,
)
    requires
        tables_in_order(state),
    ensures
        ({
            let planned = plan_result(state, position, to, live);
            let p = position as u64;
            &&& (forall|a: AssignmentView| !#[trigger] is_placed(state, position, a)) <==> planned
                == Err::<PlanView, ShardError>(
                ShardError::ControlPlane(ControlFault::NoAssignment { position: p }),
            )
            &&& is_placed(state, position, assignment) ==> {
                let replicas = assignment.replicas.len();
                let primary = assignment.primary;
                &&& replicas > 0 ==> planned == Err::<PlanView, ShardError>(
                    ShardError::Config(
                        ConfigFault::Replicated { position: p, replicas: replicas as u64 },
                    ),
                )
                &&& replicas == 0 && unregistered(state, primary) ==> planned == Err::<
                    PlanView,
                    ShardError,
                >(ShardError::ControlPlane(ControlFault::NodeUnroutable { node: primary }))
                &&& replicas == 0 && !unregistered(state, primary) && unregistered(state, to)
                    ==> planned == Err::<PlanView, ShardError>(
                    ShardError::ControlPlane(ControlFault::NodeUnroutable { node: to }),
                )
                &&& replicas == 0 && !unregistered(state, primary) && !unregistered(state, to)
                    ==> match live {
                    LiveView::NotCapable => planned == Err::<PlanView, ShardError>(
                        ShardError::Config(ConfigFault::NotHandoffCapable { position: p }),
                    ),
                    LiveView::NoPrimary => planned == Err::<PlanView, ShardError>(
                        ShardError::Config(ConfigFault::NoLivePrimary { position: p }),
                    ),
                    LiveView::Primary(endpoint) => {
                        &&& planned is Ok
                        &&& planned->Ok_0.expected == assignment
                        &&& planned->Ok_0.to == to
                        &&& is_registered(state, primary, planned->Ok_0.from_endpoint)
                        &&& is_registered(state, to, planned->Ok_0.target_endpoint)
                        &&& planned->Ok_0.live_endpoint == endpoint
                    },
                }
            }
        }),
{
    lemma_reads(state, position, to);
    lemma_reads(state, position, assignment.primary);
    lemma_unregistered(state, to);
    lemma_unregistered(state, assignment.primary);
    if state.assignment(position) is Some {
        assert(is_placed(state, position, state.assignment(position)->0));
    }
    if is_placed(state, position, assignment) {
        assert(state.assignment(position) == Some(assignment));
    }
}

/// Every plan is of a position without replicas, which the document has as the plan expects it.
pub proof fn lemma_plan_is_committed(
    state: ClusterStateView,
    position: u32,
    to: NodeId,
    live: LiveView,
)
    ensures
        plan_result(state, position, to, live) matches Ok(plan) ==> {
            &&& state.assignment(position) == Some(plan.expected)
            &&& plan.expected.position == position
            &&& plan.expected.replicas.len() == 0
        },
{
    if state.assignment(position) is Some {
        lemma_found::<ShardAssignment>(state.assignments, position as u64);
    }
}

/// A plan that still holds is of a position that has no replicas now: where it was made for such a
/// position, the document has exactly what it expects.
pub proof fn lemma_held_plan_is_bare(plan: PlanView, state: ClusterStateView, live: Seq<char>)
    requires
        plan_holds(plan, state, live),
    ensures
        state.assignment(plan.expected.position) matches Some(a) && a.replicas.len() == 0
            && a.primary == plan.expected.primary,
        plan.expected.replicas.len() == 0 ==> state.assignment(plan.expected.position) == Some(
            plan.expected,
        ),
{
    lemma_found::<ShardAssignment>(state.assignments, plan.expected.position as u64);
    let a = state.assignment(plan.expected.position)->0;
    if plan.expected.replicas.len() == 0 {
        assert(a.replicas =~= plan.expected.replicas);
    }
}

proof fn lemma_unregistered(state: ClusterStateView, node: NodeId)
    requires
        tables_in_order(state),
    ensures
        unregistered(state, node) <==> state.endpoint(node) is None,
{
    lemma_reads(state, 0, node);
    if state.endpoint(node) is Some {
        assert(is_registered(state, node, state.endpoint(node)->0));
    }
}

/// A node is registered at an endpoint that is one slot with this one.
pub open spec fn registered_slot(
    state: ClusterStateView,
    node: NodeId,
    endpoint: Seq<char>,
) -> bool {
    exists|e: Seq<char>| #[trigger] is_registered(state, node, e) && one_slot(e, endpoint)
}

proof fn lemma_registered_slot(state: ClusterStateView, node: NodeId, endpoint: Seq<char>)
    requires
        tables_in_order(state),
    ensures
        registered_slot(state, node, endpoint) <==> (state.endpoint(node) matches Some(e)
            && normalized(e) == normalized(endpoint)),
{
    lemma_reads(state, 0, node);
    if registered_slot(state, node, endpoint) {
        let e = choose|e: Seq<char>| #[trigger]
            is_registered(state, node, e) && one_slot(e, endpoint);
        lemma_one_slot(e, endpoint);
        assert(state.endpoint(node) == Some(e));
    }
    if state.endpoint(node) matches Some(e) && normalized(e) == normalized(endpoint) {
        let e = state.endpoint(node)->0;
        assert(is_registered(state, node, e));
        lemma_one_slot(e, endpoint);
    }
}

/// A plan holds exactly where the position is still placed on the planned node alone, both nodes
/// are still registered at their planned slots, and the planned slot still serves.
pub proof fn lemma_plan_stands(plan: PlanView, state: ClusterStateView, live: Seq<char>)
    requires
        tables_in_order(state),
    ensures
        plan_holds(plan, state, live) <==> {
            &&& exists|a: AssignmentView|
                {
                    &&& #[trigger] is_placed(state, plan.expected.position, a)
                    &&& a.primary == plan.expected.primary
                    &&& a.replicas.len() == 0
                }
            &&& registered_slot(state, plan.expected.primary, plan.from_endpoint)
            &&& registered_slot(state, plan.to, plan.target_endpoint)
            &&& one_slot(live, plan.live_endpoint)
        },
{
    lemma_reads(state, plan.expected.position, plan.to);
    lemma_registered_slot(state, plan.expected.primary, plan.from_endpoint);
    lemma_registered_slot(state, plan.to, plan.target_endpoint);
    lemma_one_slot(live, plan.live_endpoint);
    if state.assignment(plan.expected.position) is Some {
        assert(is_placed(
            state,
            plan.expected.position,
            state.assignment(plan.expected.position)->0,
        ));
    }
}

// ---- The decision --------------------------------------------------------------------------

/// The node at this place of the table is registered at a slot.
pub open spec fn holds_slot(state: ClusterStateView, i: int, slot: Seq<char>) -> bool {
    &&& 0 <= i < state.nodes.len()
    &&& state.nodes[i].addr matches Some(e) && one_slot(e, slot)
}

proof fn lemma_holders(nodes: Seq<NodeView>, slot: Seq<char>)
    ensures
        ({
            let holders = nodes_at(nodes, normalized(slot));
            let at = |i: int|
                0 <= i < nodes.len() && (nodes[i].addr matches Some(e) && normalized(e)
                    == normalized(slot));
            &&& holders.len() == 0 ==> forall|i: int| !#[trigger] at(i)
            &&& holders.len() == 1 ==> exists|i: int|
                #[trigger] at(i) && holders[0] == nodes[i].id && forall|j: int| #[trigger]
                    at(j) ==> j == i
            &&& holders.len() > 1 ==> exists|i: int, j: int|
                i != j && #[trigger] at(i) && #[trigger] at(j)
        }),
    decreases nodes.len(),
{
    let at = |i: int|
        0 <= i < nodes.len() && (nodes[i].addr matches Some(e) && normalized(e) == normalized(
            slot,
        ));
    if nodes.len() > 0 {
        let d = nodes.drop_last();
        let n = nodes.len() - 1;
        let before = |i: int|
            0 <= i < d.len() && (d[i].addr matches Some(e) && normalized(e) == normalized(slot));
        lemma_holders(d, slot);
        assert forall|i: int| i != n implies #[trigger] at(i) == before(i) by {}
        let rest = nodes_at(d, normalized(slot));
        if at(n) {
            if rest.len() == 0 {
                assert forall|j: int| #[trigger] at(j) implies j == n by {
                    assert(!before(j));
                }
            } else if rest.len() == 1 {
                let i = choose|i: int|
                    #[trigger] before(i) && rest[0] == d[i].id && forall|j: int| #[trigger]
                        before(j) ==> j == i;
                assert(at(i) && at(n) && i != n);
            } else {
                let (i, j) = choose|i: int, j: int|
                    i != j && #[trigger] before(i) && #[trigger] before(j);
                assert(at(i) && at(j));
            }
        } else {
            if rest.len() == 0 {
                assert forall|j: int| !#[trigger] at(j) by {
                    assert(!before(j));
                }
            } else if rest.len() == 1 {
                let i = choose|i: int|
                    #[trigger] before(i) && rest[0] == d[i].id && forall|j: int| #[trigger]
                        before(j) ==> j == i;
                assert(at(i));
                assert forall|j: int| #[trigger] at(j) implies j == i by {
                    assert(before(j));
                }
            } else {
                let (i, j) = choose|i: int, j: int|
                    i != j && #[trigger] before(i) && #[trigger] before(j);
                assert(at(i) && at(j));
            }
        }
    }
}

/// The transition of a work: from the planned assignment to one node alone, as the document has
/// the nodes, with the authority of the side that serves.
pub open spec fn transition_to(
    state: ClusterStateView,
    plan: PlanView,
    work: WorkView,
    kind: WorkKind,
    desired: NodeId,
    desired_endpoint: Seq<char>,
    generation: u64,
) -> bool {
    &&& work.kind == kind
    &&& work.generation == generation
    &&& work.source_endpoint == plan.from_endpoint
    &&& work.live_endpoint == plan.live_endpoint
    &&& work.desired_endpoint == desired_endpoint
    &&& work.intent.expected == plan.expected
    &&& work.intent.desired.position == plan.expected.position
    &&& work.intent.desired.primary == desired
    &&& work.intent.desired.replicas.len() == 0
    &&& work.intent.position == plan.expected.position
    &&& work.intent.live_generation == generation
    &&& work.intent.initial_authority == if kind == WorkKind::Move {
        MoveInitialAuthority::Expected
    } else {
        MoveInitialAuthority::Desired
    }
    &&& members_are_the_named(work.intent)
}

/// A node takes part in the transition of a plan to a node.
pub open spec fn takes_part(plan: PlanView, desired: NodeId, node: NodeId) -> bool {
    names(plan.expected, node) || node == desired
}

/// A decision to work on a transition, or the least node of it that is not registered.
pub open spec fn works_towards(
    state: ClusterStateView,
    plan: PlanView,
    decided: Result<DecisionView, ErrorView>,
    kind: WorkKind,
    desired: NodeId,
    desired_endpoint: Seq<char>,
    generation: u64,
) -> bool {
    match decided {
        Ok(DecisionView::Work(work)) => {
            &&& forall|n: NodeId| #[trigger]
                takes_part(plan, desired, n) ==> !unregistered(state, n)
            &&& transition_to(state, plan, work, kind, desired, desired_endpoint, generation)
        },
        Ok(_) => false,
        Err(e) => exists|node: NodeId|
            {
                &&& e == ErrorView::Plain(
                    ShardError::ControlPlane(ControlFault::MemberUnregistered { node }),
                )
                &&& #[trigger] takes_part(plan, desired, node)
                &&& unregistered(state, node)
            },
    }
}

proof fn lemma_bare_names(position: u32, desired: NodeId)
    ensures
        forall|n: NodeId| #[trigger] names(bare(position, desired), n) <==> n == desired,
{
}

#[verifier::spinoff_prover]
proof fn lemma_work(
    state: ClusterStateView,
    plan: PlanView,
    kind: WorkKind,
    desired: NodeId,
    desired_endpoint: Seq<char>,
    generation: u64,
    fence: u64,
)
    requires
        tables_in_order(state),
    ensures
        ({
            let decided = work_result(
                state,
                plan,
                kind,
                desired,
                desired_endpoint,
                generation,
                fence,
            );
            &&& works_towards(state, plan, decided, kind, desired, desired_endpoint, generation)
            &&& decided matches Ok(DecisionView::Work(work))
                ==> work.intent.source_fence_generation == fence
        }),
{
    let target = bare(plan.expected.position, desired);
    lemma_bare_names(plan.expected.position, desired);
    lemma_plannable(state, plan.expected, target);
    lemma_planned(
        state,
        plan.expected,
        target,
        generation,
        fence,
        if kind is Move {
            MoveInitialAuthority::Expected
        } else {
            MoveInitialAuthority::Desired
        },
    );
    let decided = work_result(state, plan, kind, desired, desired_endpoint, generation, fence);
    match decided {
        Ok(DecisionView::Work(_)) => {
            assert forall|n: NodeId| #[trigger] takes_part(plan, desired, n) implies !unregistered(
                state,
                n,
            ) by {
                assert(names(target, n) <==> n == desired);
            }
        },
        Ok(_) => {},
        Err(e) => {
            let node = crate::intent::first_unregistered(
                state,
                crate::intent::transition_nodes(plan.expected, target),
                0,
            )->0;
            assert(names(target, node) <==> node == desired);
            assert(takes_part(plan, desired, node));
        },
    }
}

#[verifier::spinoff_prover]
proof fn lemma_follow(
    state: ClusterStateView,
    plan: PlanView,
    kind: WorkKind,
    desired: NodeId,
    live: Seq<char>,
    generation: u64,
)
    requires
        tables_in_order(state),
    ensures
        ({
            let decided = follow_result(state, plan, kind, desired, live, generation);
            &&& works_towards(state, plan, decided, kind, desired, live, generation)
            &&& decided matches Ok(DecisionView::Work(work)) ==> exists|source: Seq<char>|
                #[trigger] is_registered(state, plan.expected.primary, source)
                    && work.intent.source_fence_generation == if one_slot(source, live) {
                    0
                } else if generation > 0 {
                    generation
                } else {
                    1
                }
        }),
{
    let primary = plan.expected.primary;
    lemma_reads(state, 0, primary);
    lemma_unregistered(state, primary);
    match state.endpoint(primary) {
        None => {
            assert(names(plan.expected, primary));
            assert(takes_part(plan, desired, primary));
        },
        Some(source) => {
            let fence = crate::intent::live_authority_fence(source, live, generation);
            assert(is_registered(state, primary, source));
            lemma_live_fence(source, live, generation);
            lemma_work(state, plan, kind, desired, live, generation, fence);
        },
    }
}

/// What a started reassignment does, given what serves the position.
///
/// Where a third slot serves, the committed map first follows it: the one node that is registered
/// there, at the generation that serves; without such a node, or with more than one, nothing is
/// done.
#[verifier::spinoff_prover]
pub proof fn lemma_third_authority(
    state: ClusterStateView,
    plan: PlanView,
    route: HandoffRoute,
    generation: u64,
)
    requires
        tables_in_order(state),
        !one_slot(plan.live_endpoint, plan.from_endpoint),
        !one_slot(plan.live_endpoint, plan.target_endpoint),
    ensures
        ({
            let decided = decision_result(state, plan, route, generation);
            &&& (forall|i: int| !#[trigger] holds_slot(state, i, plan.live_endpoint)) ==> decided
                == Err::<DecisionView, ErrorView>(
                ErrorView::LiveSourceUnregistered(plan.live_endpoint),
            )
            &&& (exists|i: int, j: int|
                i != j && #[trigger] holds_slot(state, i, plan.live_endpoint)
                    && #[trigger] holds_slot(state, j, plan.live_endpoint)) ==> decided == Err::<
                DecisionView,
                ErrorView,
            >(ErrorView::LiveSourceAliased(plan.live_endpoint))
            &&& forall|i: int| #[trigger]
                holds_slot(state, i, plan.live_endpoint) && (forall|j: int| #[trigger]
                    holds_slot(state, j, plan.live_endpoint) ==> j == i) ==> works_towards(
                    state,
                    plan,
                    decided,
                    WorkKind::Chained,
                    state.nodes[i].id,
                    plan.live_endpoint,
                    generation,
                )
        }),
{
    let slot = plan.live_endpoint;
    lemma_one_slot(slot, plan.from_endpoint);
    lemma_one_slot(slot, plan.target_endpoint);
    lemma_holders(state.nodes, slot);
    let at = |i: int|
        0 <= i < state.nodes.len() && (state.nodes[i].addr matches Some(e) && normalized(e)
            == normalized(slot));
    assert forall|i: int| #[trigger] at(i) <==> holds_slot(state, i, slot) by {
        if 0 <= i < state.nodes.len() && state.nodes[i].addr is Some {
            lemma_one_slot(state.nodes[i].addr->0, slot);
        }
    }
    let holders = nodes_at(state.nodes, normalized(slot));
    if holders.len() == 0 {
        assert forall|i: int| !#[trigger] holds_slot(state, i, slot) by {
            assert(!at(i));
        }
    } else if holders.len() == 1 {
        let i = choose|i: int|
            #[trigger] at(i) && holders[0] == state.nodes[i].id && forall|j: int| #[trigger]
                at(j) ==> j == i;
        assert(holds_slot(state, i, slot));
        assert forall|j: int| #[trigger] holds_slot(state, j, slot) implies j == i by {
            assert(at(j));
        }
        lemma_follow(state, plan, WorkKind::Chained, holders[0], slot, generation);
    } else {
        let (i, j) = choose|i: int, j: int| i != j && #[trigger] at(i) && #[trigger] at(j);
        assert(holds_slot(state, i, slot) && holds_slot(state, j, slot));
    }
}

/// Where the source or the target serves: a position that is already placed on the target, at the
/// target's slot, needs nothing once no intent of it is active and the target serves. Otherwise
/// the committed map follows a target that serves already, at the generation since which it does;
/// and a target that does not is moved to, at the next generation, under a fence of that
/// generation.
#[verifier::spinoff_prover]
pub proof fn lemma_known_authority(
    state: ClusterStateView,
    plan: PlanView,
    route: HandoffRoute,
    generation: u64,
)
    requires
        tables_in_order(state),
        generation < u64::MAX,
        one_slot(plan.live_endpoint, plan.from_endpoint) || one_slot(
            plan.live_endpoint,
            plan.target_endpoint,
        ),
    ensures
        ({
            let decided = decision_result(state, plan, route, generation);
            let position = plan.expected.position;
            let there = plan.expected.primary == plan.to && one_slot(
                plan.from_endpoint,
                plan.target_endpoint,
            );
            let busy = exists|i: int|
                0 <= i < state.moves.intents.len() && (#[trigger] state.moves.intents[i]).position
                    == position;
            &&& there && busy ==> decided == Err::<DecisionView, ErrorView>(
                ErrorView::Plain(
                    ShardError::ControlPlane(
                        ControlFault::UnresolvedIntent { position: position as u64 },
                    ),
                ),
            )
            &&& there && !busy ==> decided == match route {
                HandoffRoute::AlreadyAtTarget { generation: since } => Ok::<
                    DecisionView,
                    ErrorView,
                >(DecisionView::NoChange { generation: since }),
                HandoffRoute::Move => Err::<DecisionView, ErrorView>(
                    ErrorView::StillRoutes(position as u64, plan.live_endpoint),
                ),
            }
            &&& !there ==> match route {
                HandoffRoute::AlreadyAtTarget { generation: since } => works_towards(
                    state,
                    plan,
                    decided,
                    WorkKind::Reconcile,
                    plan.to,
                    plan.target_endpoint,
                    since,
                ),
                HandoffRoute::Move => {
                    &&& works_towards(
                        state,
                        plan,
                        decided,
                        WorkKind::Move,
                        plan.to,
                        plan.target_endpoint,
                        (generation + 1) as u64,
                    )
                    &&& decided matches Ok(DecisionView::Work(work))
                        ==> work.intent.source_fence_generation == generation + 1
                },
            }
        }),
{
    let position = plan.expected.position;
    lemma_one_slot(plan.live_endpoint, plan.from_endpoint);
    lemma_one_slot(plan.live_endpoint, plan.target_endpoint);
    lemma_one_slot(plan.from_endpoint, plan.target_endpoint);
    let intents = state.moves.intents;
    assert(has_key::<MoveIntent>(intents, position as u64) <==> exists|i: int|
        0 <= i < intents.len() && (#[trigger] intents[i]).position == position) by {
        if has_key::<MoveIntent>(intents, position as u64) {
            let i = choose|i: int|
                0 <= i < intents.len() && MoveIntent::key_of(#[trigger] intents[i])
                    == position as u64;
            assert(intents[i].position == position);
        }
        if exists|i: int| 0 <= i < intents.len() && (#[trigger] intents[i]).position == position {
            let i = choose|i: int|
                0 <= i < intents.len() && (#[trigger] intents[i]).position == position;
            assert(MoveIntent::key_of(intents[i]) == position as u64);
        }
    }
    match route {
        HandoffRoute::AlreadyAtTarget { generation: since } => {
            lemma_follow(
                state,
                plan,
                WorkKind::Reconcile,
                plan.to,
                plan.target_endpoint,
                since,
            );
        },
        HandoffRoute::Move => {
            lemma_work(
                state,
                plan,
                WorkKind::Move,
                plan.to,
                plan.target_endpoint,
                (generation + 1) as u64,
                (generation + 1) as u64,
            );
        },
    }
}

} // verus!
