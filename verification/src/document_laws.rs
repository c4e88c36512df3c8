//! What the document says, read off its tables: which assignment a position has, where a node is
//! registered, which nodes an assignment names, and what every transition does to the tables.

use vstd::prelude::*;

use crate::control::{changed, committed, counters_fit, genesis, reported};
use crate::control_laws::{lemma_bumped, lemma_bumped_others, lemma_resized, well_formed};
use crate::document::{
    AssignmentGeneration, AssignmentView, ChangeView, ClusterState, ClusterStateView, CommandView,
    EvidenceView, IntentView, MoveIntent, MoveIntentPhase, MoveMemberEvidence, MoveMemberIdentity,
    MoveRecoveryEvidence, NodeDescriptor, NodeId, NodeRole, NodeView, PhaseView, ShardAssignment,
    lemma_node_set, node_set,
};
use crate::keyed::{
    Keyed, canonical, first_with_key, has_key, lemma_found, lemma_has_key, lemma_installed,
    lemma_keys_below, lemma_lookup, lemma_without_key, views,
};
use crate::move_intent::{
    distinct_endpoints, evidence_fits, identities_hold, identity_holds, members_cover,
    move_outcome, predicate_holds,
};
use crate::text::{lemma_normal_form, normal_form, normalized};

verus! {

// ---- Reading the tables --------------------------------------------------------------------

/// Every table stands in strictly increasing order: nodes by id, assignments, generations and
/// intents by position.
pub open spec fn tables_in_order(state: ClusterStateView) -> bool {
    &&& forall|i: int, j: int|
        0 <= i < j < state.nodes.len() ==> (#[trigger] state.nodes[i]).id.0 < (
        #[trigger] state.nodes[j]).id.0
    &&& forall|i: int, j: int|
        0 <= i < j < state.assignments.len() ==> (#[trigger] state.assignments[i]).position < (
        #[trigger] state.assignments[j]).position
    &&& forall|i: int, j: int|
        0 <= i < j < state.moves.assignment_generations.len() ==> (
        #[trigger] state.moves.assignment_generations[i]).position < (
        #[trigger] state.moves.assignment_generations[j]).position
    &&& forall|i: int, j: int|
        0 <= i < j < state.moves.intents.len() ==> (#[trigger] state.moves.intents[i]).position < (
        #[trigger] state.moves.intents[j]).position
}

/// The table of assignments has this one, for this position.
pub open spec fn is_placed(
    state: ClusterStateView,
    position: u32,
    assignment: AssignmentView,
) -> bool {
    exists|i: int|
        0 <= i < state.assignments.len() && #[trigger] state.assignments[i] == assignment
            && assignment.position == position
}

/// The table of nodes has this node, at this endpoint.
pub open spec fn is_registered(
    state: ClusterStateView,
    node: NodeId,
    endpoint: Seq<char>,
) -> bool {
    exists|i: int|
        0 <= i < state.nodes.len() && (#[trigger] state.nodes[i]).id == node && state.nodes[i].addr
            == Some(endpoint)
}

/// So many writes of the position are recorded; none where the table has no entry for it.
pub open spec fn is_generation(state: ClusterStateView, position: u32, generation: u64) -> bool {
    let table = state.moves.assignment_generations;
    ||| exists|i: int|
        0 <= i < table.len() && (#[trigger] table[i]).position == position && table[i].generation
            == generation
    ||| generation == 0 && forall|i: int|
        0 <= i < table.len() ==> (#[trigger] table[i]).position != position
}

/// Looking a position or a node up finds what the table has for it, and nothing else.
pub proof fn lemma_reads(state: ClusterStateView, position: u32, node: NodeId)
    requires
        tables_in_order(state),
    ensures
        forall|a: AssignmentView|
            state.assignment(position) == Some(a) <==> #[trigger] is_placed(state, position, a),
        forall|e: Seq<char>|
            state.endpoint(node) == Some(e) <==> #[trigger] is_registered(state, node, e),
        forall|g: u64|
            state.moves.generation(position) == g <==> #[trigger] is_generation(
                state,
                position,
                g,
            ),
{
    lemma_canonical_tables(state);
    let assignments = state.assignments;
    let nodes = state.nodes;
    let generations = state.moves.assignment_generations;
    assert forall|a: AssignmentView|
        state.assignment(position) == Some(a) <==> #[trigger] is_placed(state, position, a) by {
        if state.assignment(position) == Some(a) {
            lemma_found::<ShardAssignment>(assignments, position as u64);
            let i = choose|i: int| 0 <= i < assignments.len() && assignments[i] == a;
            assert(assignments[i] == a);
        }
        if is_placed(state, position, a) {
            assert(assignments.contains(a));
            lemma_lookup::<ShardAssignment>(assignments, a);
        }
    }
    assert forall|e: Seq<char>|
        state.endpoint(node) == Some(e) <==> #[trigger] is_registered(state, node, e) by {
        if state.endpoint(node) == Some(e) {
            lemma_found::<NodeDescriptor>(nodes, node.0);
            let found = first_with_key::<NodeDescriptor>(nodes, node.0)->0;
            let i = choose|i: int| 0 <= i < nodes.len() && nodes[i] == found;
            assert(nodes[i].id == node);
        }
        if is_registered(state, node, e) {
            let i = choose|i: int|
                0 <= i < nodes.len() && (#[trigger] nodes[i]).id == node && nodes[i].addr == Some(
                    e,
                );
            assert(nodes.contains(nodes[i]));
            lemma_lookup::<NodeDescriptor>(nodes, nodes[i]);
        }
    }
    lemma_has_key::<AssignmentGeneration>(generations, position as u64);
    assert forall|g: u64|
        state.moves.generation(position) == g <==> #[trigger] is_generation(
            state,
            position,
            g,
        ) by {
        if exists|i: int| 0 <= i < generations.len() && (#[trigger] generations[i]).position
            == position {
            let i = choose|i: int|
                0 <= i < generations.len() && (#[trigger] generations[i]).position == position;
            assert(generations.contains(generations[i]));
            lemma_lookup::<AssignmentGeneration>(generations, generations[i]);
            if is_generation(state, position, g) {
                let j = choose|j: int|
                    0 <= j < generations.len() && (#[trigger] generations[j]).position == position
                        && generations[j].generation == g;
                if i < j {
                    assert(generations[i].position < generations[j].position);
                } else if j < i {
                    assert(generations[j].position < generations[i].position);
                }
            }
        } else {
            assert(!has_key::<AssignmentGeneration>(generations, position as u64)) by {
                if has_key::<AssignmentGeneration>(generations, position as u64) {
                    lemma_found::<AssignmentGeneration>(generations, position as u64);
                    let found = first_with_key::<AssignmentGeneration>(
                        generations,
                        position as u64,
                    )->0;
                    let i = choose|i: int| 0 <= i < generations.len() && generations[i] == found;
                    assert(generations[i].position == position);
                }
            }
        }
    }
}

/// Tables in order are canonical.
pub proof fn lemma_canonical_tables(state: ClusterStateView)
    ensures
        tables_in_order(state) <==> {
            &&& canonical::<NodeDescriptor>(state.nodes)
            &&& canonical::<ShardAssignment>(state.assignments)
            &&& canonical::<AssignmentGeneration>(state.moves.assignment_generations)
            &&& canonical::<MoveIntent>(state.moves.intents)
        },
{
    if tables_in_order(state) {
        assert forall|i: int, j: int| 0 <= i < j < state.nodes.len() implies
            <NodeDescriptor as Keyed>::key_of(#[trigger] state.nodes[i])
            < <NodeDescriptor as Keyed>::key_of(#[trigger] state.nodes[j]) by {}
    }
    if canonical::<NodeDescriptor>(state.nodes) {
        assert forall|i: int, j: int| 0 <= i < j < state.nodes.len() implies (
        #[trigger] state.nodes[i]).id.0 < (#[trigger] state.nodes[j]).id.0 by {
            assert(<NodeDescriptor as Keyed>::key_of(state.nodes[i])
                < <NodeDescriptor as Keyed>::key_of(state.nodes[j]));
        }
    }
}

/// An assignment names a node: as its primary, or as one of its replicas.
pub open spec fn names(assignment: AssignmentView, node: NodeId) -> bool {
    node == assignment.primary || exists|i: int|
        0 <= i < assignment.replicas.len() && #[trigger] assignment.replicas[i] == node
}

/// An assignment names no node twice.
pub open spec fn names_each_once(assignment: AssignmentView) -> bool {
    &&& forall|i: int|
        0 <= i < assignment.replicas.len() ==> #[trigger] assignment.replicas[i]
            != assignment.primary
    &&& forall|i: int, j: int|
        0 <= i < j < assignment.replicas.len() ==> assignment.replicas[i] != assignment.replicas[j]
}

/// The nodes of an assignment are those that it names, the primary first and the replicas behind
/// it in their order.
pub proof fn lemma_nodes(assignment: AssignmentView)
    ensures
        forall|n: NodeId| #[trigger] assignment.nodes().contains(n) <==> names(assignment, n),
        assignment.nodes().no_duplicates() <==> names_each_once(assignment),
        assignment.nodes().len() == assignment.replicas.len() + 1,
        assignment.nodes()[0] == assignment.primary,
        forall|i: int|
            0 <= i < assignment.replicas.len() ==> #[trigger] assignment.replicas[i]
                == assignment.nodes()[i + 1],
{
    let nodes = assignment.nodes();
    let replicas = assignment.replicas;
    assert forall|i: int| 0 <= i < replicas.len() implies #[trigger] replicas[i] == nodes[i
        + 1] by {}
    assert forall|n: NodeId| #[trigger] nodes.contains(n) <==> names(assignment, n) by {
        if nodes.contains(n) {
            let i = choose|i: int| 0 <= i < nodes.len() && nodes[i] == n;
            if i > 0 {
                assert(replicas[i - 1] == n);
            }
        }
        if names(assignment, n) {
            if n == assignment.primary {
                assert(nodes[0] == n);
            } else {
                let i = choose|i: int| 0 <= i < replicas.len() && #[trigger] replicas[i] == n;
                assert(nodes[i + 1] == n);
            }
        }
    }
    if nodes.no_duplicates() {
        assert forall|i: int| 0 <= i < replicas.len() implies #[trigger] replicas[i]
            != assignment.primary by {
            assert(nodes[0] != nodes[i + 1]);
        }
        assert forall|i: int, j: int| 0 <= i < j < replicas.len() implies replicas[i]
            != replicas[j] by {
            assert(nodes[i + 1] != nodes[j + 1]);
        }
    }
    if names_each_once(assignment) {
        assert forall|i: int, j: int|
            0 <= i < nodes.len() && 0 <= j < nodes.len() && i != j implies nodes[i]
            != nodes[j] by {
            if i == 0 {
                assert(replicas[j - 1] != assignment.primary);
            } else if j == 0 {
                assert(replicas[i - 1] != assignment.primary);
            } else if i < j {
                assert(replicas[i - 1] != replicas[j - 1]);
            } else {
                assert(replicas[j - 1] != replicas[i - 1]);
            }
        }
    }
}

/// Two records are of one transition: they agree in everything but how far it has come.
pub proof fn lemma_same_transition(a: IntentView, b: IntentView)
    ensures
        a.same_transition(b) <==> {
            &&& a.intent_version == b.intent_version
            &&& a.operation_id == b.operation_id
            &&& a.position == b.position
            &&& a.expected_assignment_generation == b.expected_assignment_generation
            &&& a.placement_generation == b.placement_generation
            &&& a.expected == b.expected
            &&& a.desired == b.desired
            &&& a.members == b.members
            &&& a.live_generation == b.live_generation
            &&& a.source_fence_generation == b.source_fence_generation
            &&& a.initial_authority == b.initial_authority
        },
        forall|phase: PhaseView|
            {
                let later = #[trigger] a.in_phase(phase);
                later.phase == phase && later.same_transition(a)
            },
{
    let x = a.in_phase(PhaseView::Preparing);
    let y = b.in_phase(PhaseView::Preparing);
    if a.same_transition(b) {
        assert(x == y);
        assert(a.members == x.members && b.members == y.members);
        assert(a.expected == x.expected && b.expected == y.expected);
        assert(a.desired == x.desired && b.desired == y.desired);
    }
}

// ---- Identities ----------------------------------------------------------------------------

/// The recorded members are the nodes that either assignment names, in strictly increasing order.
pub open spec fn members_are_the_named(intent: IntentView) -> bool {
    &&& forall|i: int, j: int|
        0 <= i < j < intent.members.len() ==> (#[trigger] intent.members[i]).node.0 < (
        #[trigger] intent.members[j]).node.0
    &&& forall|i: int|
        0 <= i < intent.members.len() ==> names(
            intent.expected,
            (#[trigger] intent.members[i]).node,
        ) || names(intent.desired, intent.members[i].node)
    &&& forall|n: NodeId|
        names(intent.expected, n) || names(intent.desired, n) ==> #[trigger] is_member(intent, n)
}

/// A node is among the recorded members.
pub open spec fn is_member(intent: IntentView, node: NodeId) -> bool {
    exists|i: int| 0 <= i < intent.members.len() && (#[trigger] intent.members[i]).node == node
}

/// No two recorded members that one assignment names are at one endpoint.
pub open spec fn members_apart(intent: IntentView, assignment: AssignmentView) -> bool {
    forall|i: int, j: int|
        0 <= i < j < intent.members.len() && names(assignment, (#[trigger] intent.members[i]).node)
            && names(assignment, (#[trigger] intent.members[j]).node)
            ==> intent.members[i].endpoint != intent.members[j].endpoint
}

/// A node is registered at an endpoint whose normal form is `identity`.
pub open spec fn serves_at(state: ClusterStateView, node: NodeId, identity: Seq<char>) -> bool {
    exists|e: Seq<char>| #[trigger] is_registered(state, node, e) && normal_form(e, identity)
}

/// What an intent recorded of its members is what the document says of them now.
pub open spec fn identities_stand(state: ClusterStateView, intent: IntentView) -> bool {
    &&& names_each_once(intent.expected)
    &&& names_each_once(intent.desired)
    &&& members_are_the_named(intent)
    &&& forall|i: int|
        0 <= i < intent.members.len() ==> {
            let member = #[trigger] intent.members[i];
            &&& member.endpoint.len() > 0
            &&& normal_form(member.endpoint, member.endpoint)
            &&& serves_at(state, member.node, member.endpoint)
        }
    &&& members_apart(intent, intent.expected)
    &&& members_apart(intent, intent.desired)
}

/// The document has the expected assignment, at the recorded generations.
pub open spec fn predicate_stands(state: ClusterStateView, intent: IntentView) -> bool {
    &&& is_placed(state, intent.position, intent.expected)
    &&& is_generation(state, intent.position, intent.expected_assignment_generation)
    &&& state.placement_generation == intent.placement_generation
}

/// The evidence is of the intent's generation, and of the nodes that the desired assignment
/// names, in strictly increasing order.
pub open spec fn evidence_stands(intent: IntentView, evidence: EvidenceView) -> bool {
    &&& evidence.live_generation == intent.live_generation
    &&& names_each_once(intent.desired)
    &&& forall|i: int, j: int|
        0 <= i < j < evidence.members.len() ==> (#[trigger] evidence.members[i]).node.0 < (
        #[trigger] evidence.members[j]).node.0
    &&& forall|i: int|
        0 <= i < evidence.members.len() ==> names(
            intent.desired,
            (#[trigger] evidence.members[i]).node,
        )
    &&& forall|n: NodeId| names(intent.desired, n) ==> #[trigger] has_evidence(evidence, n)
}

/// The evidence has a node.
pub open spec fn has_evidence(evidence: EvidenceView, node: NodeId) -> bool {
    exists|i: int| 0 <= i < evidence.members.len() && (#[trigger] evidence.members[i]).node == node
}

/// A node is registered at an endpoint of this normal form exactly where the document gives an
/// endpoint for it that normalizes to it.
pub proof fn lemma_serves_at(state: ClusterStateView, node: NodeId, identity: Seq<char>)
    requires
        tables_in_order(state),
    ensures
        serves_at(state, node, identity) <==> (state.endpoint(node) matches Some(e) && normalized(e)
            == identity),
{
    lemma_reads(state, 0, node);
    if serves_at(state, node, identity) {
        let e = choose|e: Seq<char>| #[trigger]
            is_registered(state, node, e) && normal_form(e, identity);
        assert(state.endpoint(node) == Some(e));
        lemma_normal_form(e, identity);
    }
    if state.endpoint(node) matches Some(e) && normalized(e) == identity {
        let e = state.endpoint(node)->0;
        assert(is_registered(state, node, e));
        lemma_normal_form(e, identity);
    }
}

/// The identities of an intent hold exactly where what it recorded stands in the tables.
pub proof fn lemma_identities(state: ClusterStateView, intent: IntentView)
    requires
        tables_in_order(state),
    ensures
        identities_hold(state, intent) <==> identities_stand(state, intent),
{
    lemma_nodes(intent.expected);
    lemma_nodes(intent.desired);
    lemma_members(intent);
    assert forall|i: int| 0 <= i < intent.members.len() implies (identity_holds(
        state,
        #[trigger] intent.members[i],
    ) <==> {
        let member = intent.members[i];
        &&& member.endpoint.len() > 0
        &&& normal_form(member.endpoint, member.endpoint)
        &&& serves_at(state, member.node, member.endpoint)
    }) by {
        let member = intent.members[i];
        lemma_normal_form(member.endpoint, member.endpoint);
        lemma_serves_at(state, member.node, member.endpoint);
    }
    if identities_hold(state, intent) {
        assert forall|i: int| 0 <= i < intent.members.len() implies {
            let member = #[trigger] intent.members[i];
            &&& member.endpoint.len() > 0
            &&& normal_form(member.endpoint, member.endpoint)
            &&& serves_at(state, member.node, member.endpoint)
        } by {
            assert(identity_holds(state, intent.members[i]));
        }
    }
    if identities_stand(state, intent) {
        assert forall|i: int| 0 <= i < intent.members.len() implies identity_holds(
            state,
            #[trigger] intent.members[i],
        ) by {}
    }
}

/// The members cover both assignments exactly where they are the nodes that these name; and they
/// are apart exactly where their endpoints are distinct.
pub proof fn lemma_members(intent: IntentView)
    ensures
        members_cover(intent) <==> {
            &&& names_each_once(intent.expected)
            &&& names_each_once(intent.desired)
            &&& members_are_the_named(intent)
        },
        distinct_endpoints(intent.expected, intent.members) <==> members_apart(
            intent,
            intent.expected,
        ),
        distinct_endpoints(intent.desired, intent.members) <==> members_apart(
            intent,
            intent.desired,
        ),
{
    let members = intent.members;
    lemma_nodes(intent.expected);
    lemma_nodes(intent.desired);
    assert forall|n: NodeId| has_key::<MoveMemberIdentity>(members, n.0) <==> #[trigger] is_member(
        intent,
        n,
    ) by {
        if has_key::<MoveMemberIdentity>(members, n.0) {
            let i = choose|i: int|
                0 <= i < members.len() && <MoveMemberIdentity as Keyed>::key_of(
                    #[trigger] members[i],
                ) == n.0;
            assert(members[i].node == n);
        }
        if is_member(intent, n) {
            let i = choose|i: int| 0 <= i < members.len() && (#[trigger] members[i]).node == n;
            assert(<MoveMemberIdentity as Keyed>::key_of(members[i]) == n.0);
        }
    }
    if members_cover(intent) {
        assert forall|i: int, j: int| 0 <= i < j < members.len() implies (
        #[trigger] members[i]).node.0 < (#[trigger] members[j]).node.0 by {
            assert(<MoveMemberIdentity as Keyed>::key_of(members[i])
                < <MoveMemberIdentity as Keyed>::key_of(members[j]));
        }
        assert forall|i: int| 0 <= i < members.len() implies names(
            intent.expected,
            (#[trigger] members[i]).node,
        ) || names(intent.desired, members[i].node) by {
            let n = members[i].node;
            assert(is_member(intent, n));
            assert(intent.expected.nodes().contains(n) || intent.desired.nodes().contains(n));
        }
        assert forall|n: NodeId|
            names(intent.expected, n) || names(
                intent.desired,
                n,
            ) implies #[trigger] is_member(intent, n) by {
            assert(intent.expected.nodes().contains(n) || intent.desired.nodes().contains(n));
        }
    }
    if names_each_once(intent.expected) && names_each_once(intent.desired)
        && members_are_the_named(intent) {
        assert forall|i: int, j: int| 0 <= i < j < members.len() implies
            <MoveMemberIdentity as Keyed>::key_of(#[trigger] members[i])
            < <MoveMemberIdentity as Keyed>::key_of(#[trigger] members[j]) by {}
        assert forall|n: NodeId|
            has_key::<MoveMemberIdentity>(members, n.0) <==> (
            #[trigger] intent.expected.nodes().contains(n) || intent.desired.nodes().contains(
                n,
            )) by {
            assert(has_key::<MoveMemberIdentity>(members, n.0) <==> is_member(intent, n));
            if is_member(intent, n) {
                let i = choose|i: int| 0 <= i < members.len() && (#[trigger] members[i]).node == n;
                assert(names(intent.expected, members[i].node) || names(
                    intent.desired,
                    members[i].node,
                ));
            }
        }
    }
}

/// The document still is what an intent was planned against exactly where its predicate and its
/// identities stand.
pub proof fn lemma_predicate(state: ClusterStateView, intent: IntentView)
    requires
        tables_in_order(state),
    ensures
        predicate_holds(state, intent) <==> predicate_stands(state, intent) && identities_stand(
            state,
            intent,
        ),
{
    lemma_reads(state, intent.position, NodeId(0));
    lemma_identities(state, intent);
    assert(is_placed(state, intent.position, intent.expected) <==> state.assignment(
        intent.position,
    ) == Some(intent.expected));
    assert(is_generation(state, intent.position, intent.expected_assignment_generation)
        <==> state.moves.generation(intent.position) == intent.expected_assignment_generation);
}

/// Evidence fits an intent exactly where it is of the intent's generation and of the nodes that
/// the desired assignment names.
pub proof fn lemma_evidence(intent: IntentView, evidence: EvidenceView)
    ensures
        evidence_fits(intent, evidence) <==> evidence_stands(intent, evidence),
{
    let members = evidence.members;
    lemma_nodes(intent.desired);
    assert forall|n: NodeId|
        has_key::<MoveMemberEvidence>(members, n.0) <==> #[trigger] has_evidence(evidence, n) by {
        if has_key::<MoveMemberEvidence>(members, n.0) {
            let i = choose|i: int|
                0 <= i < members.len() && <MoveMemberEvidence as Keyed>::key_of(
                    #[trigger] members[i],
                ) == n.0;
            assert(members[i].node == n);
        }
        if has_evidence(evidence, n) {
            let i = choose|i: int| 0 <= i < members.len() && (#[trigger] members[i]).node == n;
            assert(<MoveMemberEvidence as Keyed>::key_of(members[i]) == n.0);
        }
    }
    if evidence_fits(intent, evidence) {
        assert forall|i: int, j: int| 0 <= i < j < members.len() implies (
        #[trigger] members[i]).node.0 < (#[trigger] members[j]).node.0 by {
            assert(<MoveMemberEvidence as Keyed>::key_of(members[i])
                < <MoveMemberEvidence as Keyed>::key_of(members[j]));
        }
        assert forall|i: int| 0 <= i < members.len() implies names(
            intent.desired,
            (#[trigger] members[i]).node,
        ) by {
            assert(has_evidence(evidence, members[i].node));
            assert(intent.desired.nodes().contains(members[i].node));
        }
        assert forall|n: NodeId| names(
            intent.desired,
            n,
        ) implies #[trigger] has_evidence(evidence, n) by {
            assert(intent.desired.nodes().contains(n));
        }
    }
    if evidence_stands(intent, evidence) {
        assert forall|i: int, j: int| 0 <= i < j < members.len() implies
            <MoveMemberEvidence as Keyed>::key_of(#[trigger] members[i])
            < <MoveMemberEvidence as Keyed>::key_of(#[trigger] members[j]) by {}
        assert forall|n: NodeId|
            has_key::<MoveMemberEvidence>(members, n.0)
                <==> #[trigger] intent.desired.nodes().contains(n) by {
            assert(has_key::<MoveMemberEvidence>(members, n.0) <==> has_evidence(evidence, n));
            if has_evidence(evidence, n) {
                let i = choose|i: int| 0 <= i < members.len() && (#[trigger] members[i]).node == n;
                assert(names(intent.desired, members[i].node));
            }
        }
    }
}

// ---- What a transition does to the tables --------------------------------------------------

/// The number after a generation, which stays at the largest one.
pub open spec fn one_more(generation: u64) -> u64 {
    if generation < u64::MAX {
        (generation + 1) as u64
    } else {
        generation
    }
}

/// Two documents agree in the epoch, the voters, the ring and the model.
pub open spec fn same_frame(a: ClusterStateView, b: ClusterStateView) -> bool {
    &&& a.epoch == b.epoch
    &&& a.voters == b.voters
    &&& a.vnodes == b.vnodes
    &&& a.num_shards == b.num_shards
    &&& a.dict_fingerprint == b.dict_fingerprint
    &&& a.model_version == b.model_version
    &&& a.placement_generation == b.placement_generation
}

/// Registering a node puts it in place of what had its id, and changes nothing else.
pub proof fn lemma_add_node(state: ClusterStateView, node: NodeView)
    requires
        tables_in_order(state),
    ensures
        ({
            let next = changed(state, ChangeView::AddNode(node));
            &&& forall|x: NodeView| #[trigger]
                next.nodes.contains(x) <==> x == node || (state.nodes.contains(x) && x.id
                    != node.id)
            &&& tables_in_order(next)
            &&& same_frame(next, state)
            &&& next.assignments == state.assignments
            &&& next.moves == state.moves
        }),
{
    let next = changed(state, ChangeView::AddNode(node));
    lemma_canonical_tables(state);
    lemma_installed::<NodeDescriptor>(state.nodes, node);
    lemma_canonical_tables(next);
    assert forall|x: NodeView| #[trigger] next.nodes.contains(x) <==> x == node || (
    state.nodes.contains(x) && x.id != node.id) by {
        assert(x.id == node.id <==> x.id.0 == node.id.0);
    }
}

/// Removing a node takes what has its id out, and changes nothing else: neither voters nor
/// assignments are pruned.
pub proof fn lemma_remove_node(state: ClusterStateView, id: NodeId)
    requires
        tables_in_order(state),
    ensures
        ({
            let next = changed(state, ChangeView::RemoveNode(id));
            &&& forall|x: NodeView| #[trigger]
                next.nodes.contains(x) <==> state.nodes.contains(x) && x.id != id
            &&& tables_in_order(next)
            &&& same_frame(next, state)
            &&& next.assignments == state.assignments
            &&& next.moves == state.moves
        }),
{
    let next = changed(state, ChangeView::RemoveNode(id));
    lemma_canonical_tables(state);
    lemma_without_key::<NodeDescriptor>(state.nodes, id.0);
    lemma_canonical_tables(next);
    assert forall|x: NodeView| #[trigger]
        next.nodes.contains(x) <==> state.nodes.contains(x) && x.id != id by {
        assert(x.id == id <==> x.id.0 == id.0);
    }
}

/// Placing a position puts the assignment in place of what the position had, counts one more
/// write of the position, and changes nothing else.
pub proof fn lemma_assign_shard(state: ClusterStateView, assignment: AssignmentView)
    requires
        tables_in_order(state),
    ensures
        ({
            let next = changed(state, ChangeView::AssignShard(assignment));
            &&& forall|x: AssignmentView| #[trigger]
                next.assignments.contains(x) <==> x == assignment || (state.assignments.contains(x)
                    && x.position != assignment.position)
            &&& forall|g: u64| #[trigger]
                is_generation(state, assignment.position, g) ==> is_generation(
                    next,
                    assignment.position,
                    one_more(g),
                )
            &&& forall|p: u32, g: u64|
                p != assignment.position ==> (#[trigger] is_generation(next, p, g)
                    <==> is_generation(state, p, g))
            &&& tables_in_order(next)
            &&& same_frame(next, state)
            &&& next.nodes == state.nodes
            &&& next.moves.format_version == state.moves.format_version
            &&& next.moves.intents == state.moves.intents
        }),
{
    let next = changed(state, ChangeView::AssignShard(assignment));
    let position = assignment.position;
    lemma_canonical_tables(state);
    lemma_installed::<ShardAssignment>(state.assignments, assignment);
    lemma_bumped(state.moves.assignment_generations, position);
    lemma_canonical_tables(next);
    lemma_reads(state, position, NodeId(0));
    lemma_reads(next, position, NodeId(0));
    assert forall|g: u64| #[trigger] is_generation(state, position, g) implies is_generation(
        next,
        position,
        one_more(g),
    ) by {
        assert(state.moves.generation(position) == g);
        assert(next.moves.generation(position) == one_more(g));
    }
    assert forall|p: u32, g: u64| p != position implies (#[trigger] is_generation(next, p, g)
        <==> is_generation(state, p, g)) by {
        lemma_reads(state, p, NodeId(0));
        lemma_reads(next, p, NodeId(0));
        lemma_bumped_others(state.moves.assignment_generations, position, p);
        assert(next.moves.generation(p) == state.moves.generation(p));
    }
}

/// A new model is recorded with its dictionary, and makes a new placement; the tables stay.
pub proof fn lemma_bump_model(state: ClusterStateView, dict_fingerprint: u64)
    requires
        state.model_version < u64::MAX,
    ensures
        ({
            let next = changed(state, ChangeView::BumpModelVersion { dict_fingerprint });
            &&& next.dict_fingerprint == dict_fingerprint
            &&& next.model_version == state.model_version + 1
            &&& next.placement_generation == one_more(state.placement_generation)
            &&& next.epoch == state.epoch
            &&& next.num_shards == state.num_shards
            &&& next.vnodes == state.vnodes
            &&& next.voters == state.voters
            &&& next.nodes == state.nodes
            &&& next.assignments == state.assignments
            &&& next.moves == state.moves
        }),
{
}

/// After a resize there is one assignment for each position, in order: the one that the position
/// had, or the first node alone. Writes of positions that are gone are forgotten; the intents
/// stay, and the placement is a new one.
pub proof fn lemma_set_shard_count(state: ClusterStateView, num_shards: u32)
    requires
        well_formed(state),
    ensures
        ({
            let next = changed(state, ChangeView::SetShardCount { num_shards });
            &&& next.num_shards == num_shards
            &&& next.placement_generation == one_more(state.placement_generation)
            &&& next.assignments.len() == num_shards
            &&& forall|p: u32|
                p < num_shards ==> (#[trigger] next.assignments[p as int]).position == p && (
                is_placed(state, p, next.assignments[p as int]) || (
                next.assignments[p as int].primary == NodeId(0)
                    && next.assignments[p as int].replicas.len() == 0 && forall|a: AssignmentView|
                    !#[trigger] is_placed(state, p, a)))
            &&& forall|x: AssignmentGeneration| #[trigger]
                next.moves.assignment_generations.contains(x)
                    <==> state.moves.assignment_generations.contains(x) && x.position < num_shards
            &&& next.epoch == state.epoch
            &&& next.vnodes == state.vnodes
            &&& next.voters == state.voters
            &&& next.nodes == state.nodes
            &&& next.dict_fingerprint == state.dict_fingerprint
            &&& next.model_version == state.model_version
            &&& next.moves.format_version == state.moves.format_version
            &&& next.moves.intents == state.moves.intents
        }),
{
    let next = changed(state, ChangeView::SetShardCount { num_shards });
    lemma_canonical_tables(state);
    lemma_resized(state, num_shards);
    lemma_keys_below::<AssignmentGeneration>(
        state.moves.assignment_generations,
        num_shards as u64,
    );
    assert forall|p: u32| p < num_shards implies (#[trigger] next.assignments[p as int]).position
        == p && (is_placed(state, p, next.assignments[p as int]) || (
    next.assignments[p as int].primary == NodeId(0) && next.assignments[p as int].replicas.len()
        == 0 && forall|a: AssignmentView| !#[trigger] is_placed(state, p, a))) by {
        lemma_reads(state, p, NodeId(0));
        let now = next.assignments[p as int];
        assert(now == crate::control_laws::assignment_or_default(state, p));
        match state.assignment(p) {
            Some(a) => {
                assert(is_placed(state, p, a));
            },
            None => {
                assert forall|a: AssignmentView| !#[trigger] is_placed(state, p, a) by {}
            },
        }
    }
}

/// The first document: one manager without a socket, which votes alone and is the primary of
/// every position; no move was ever seen.
pub proof fn lemma_genesis(
    num_shards: u32,
    vnodes: u32,
    dict_fingerprint: u64,
    placement_generation: u64,
)
    ensures
        ({
            let state = genesis(num_shards, vnodes, dict_fingerprint, placement_generation);
            &&& state.epoch == 0
            &&& state.nodes.len() == 1
            &&& state.nodes[0].id == NodeId(0)
            &&& state.nodes[0].addr is None
            &&& state.nodes[0].role == NodeRole::Manager
            &&& state.voters == seq![NodeId(0)]
            &&& state.assignments.len() == num_shards
            &&& forall|i: int|
                0 <= i < num_shards ==> {
                    let a = #[trigger] state.assignments[i];
                    &&& a.position == i
                    &&& a.primary == NodeId(0)
                    &&& a.replicas.len() == 0
                }
            &&& state.num_shards == num_shards
            &&& state.vnodes == vnodes
            &&& state.dict_fingerprint == dict_fingerprint
            &&& state.model_version == 0
            &&& state.placement_generation == placement_generation
            &&& state.moves.format_version == 1
            &&& state.moves.assignment_generations.len() == 0
            &&& state.moves.intents.len() == 0
        }),
{
}

/// A commit counts one more version, and changes nothing else; a new voter set is the given
/// nodes, each once, in increasing order.
pub proof fn lemma_commit(state: ClusterStateView, voters: Seq<NodeId>)
    requires
        state.epoch < u64::MAX,
    ensures
        committed(state).epoch == state.epoch + 1,
        committed(state) == (ClusterStateView { epoch: committed(state).epoch, ..state }),
        forall|n: NodeId| #[trigger] node_set(voters).contains(n) <==> voters.contains(n),
        forall|i: int, j: int|
            0 <= i < j < node_set(voters).len() ==> (#[trigger] node_set(voters)[i]).0 < (
            #[trigger] node_set(voters)[j]).0,
{
    lemma_node_set(voters);
    let set = node_set(voters);
    assert forall|i: int, j: int| 0 <= i < j < set.len() implies (#[trigger] set[i]).0 < (
    #[trigger] set[j]).0 by {
        assert(<NodeId as Keyed>::key_of(set[i])
            < <NodeId as Keyed>::key_of(set[j]));
    }
}

// ---- Views ---------------------------------------------------------------------------------

/// A view holds every field of a table's entry, and so two entries with one view are the same.
pub proof fn lemma_entry_views(
    nodes: (NodeDescriptor, NodeDescriptor),
    assignments: (ShardAssignment, ShardAssignment),
    members: (MoveMemberIdentity, MoveMemberIdentity),
    evidence: (MoveRecoveryEvidence, MoveRecoveryEvidence),
)
    ensures
        nodes.0@ == nodes.1@ ==> {
            &&& nodes.0.id == nodes.1.id
            &&& nodes.0.role == nodes.1.role
            &&& nodes.0.addr is Some <==> nodes.1.addr is Some
            &&& nodes.0.addr is Some ==> (nodes.0.addr->0)@ == (nodes.1.addr->0)@
        },
        assignments.0@ == assignments.1@ ==> {
            &&& assignments.0.position == assignments.1.position
            &&& assignments.0.primary == assignments.1.primary
            &&& assignments.0.replicas@ == assignments.1.replicas@
        },
        members.0@ == members.1@ ==> {
            &&& members.0.node == members.1.node
            &&& members.0.endpoint@ == members.1.endpoint@
        },
        evidence.0@ == evidence.1@ ==> {
            &&& evidence.0.live_generation == evidence.1.live_generation
            &&& evidence.0.members@ == evidence.1.members@
        },
{
}

/// A view holds everything that an intent records.
pub proof fn lemma_intent_views(a: MoveIntent, b: MoveIntent)
    requires
        a@ == b@,
    ensures
        a.intent_version == b.intent_version,
        a.operation_id == b.operation_id,
        a.position == b.position,
        a.expected_assignment_generation == b.expected_assignment_generation,
        a.placement_generation == b.placement_generation,
        a.expected@ == b.expected@,
        a.desired@ == b.desired@,
        a.members.len() == b.members.len(),
        forall|i: int| 0 <= i < a.members.len() ==> (#[trigger] a.members@[i])@ == b.members@[i]@,
        a.live_generation == b.live_generation,
        a.source_fence_generation == b.source_fence_generation,
        a.initial_authority == b.initial_authority,
        match (a.phase, b.phase) {
            (MoveIntentPhase::Preparing, MoveIntentPhase::Preparing) => true,
            (MoveIntentPhase::Ready(x), MoveIntentPhase::Ready(y)) => x@ == y@,
            (MoveIntentPhase::Committed(x), MoveIntentPhase::Committed(y)) => x@ == y@,
            _ => false,
        },
{
    assert(views(a.members@).len() == views(b.members@).len());
    assert forall|i: int| 0 <= i < a.members.len() implies (#[trigger] a.members@[i])@
        == b.members@[i]@ by {
        assert(views(a.members@)[i] == views(b.members@)[i]);
    }
}

/// A view holds everything that a document has.
pub proof fn lemma_state_views(a: ClusterState, b: ClusterState)
    requires
        a@ == b@,
    ensures
        a.epoch == b.epoch,
        a.nodes.len() == b.nodes.len(),
        forall|i: int| 0 <= i < a.nodes.len() ==> (#[trigger] a.nodes@[i])@ == b.nodes@[i]@,
        a.voters@ == b.voters@,
        a.assignments.len() == b.assignments.len(),
        forall|i: int|
            0 <= i < a.assignments.len() ==> (#[trigger] a.assignments@[i])@ == b.assignments@[i]@,
        a.num_shards == b.num_shards,
        a.vnodes == b.vnodes,
        a.dict_fingerprint == b.dict_fingerprint,
        a.model_version == b.model_version,
        a.placement_generation == b.placement_generation,
        a.moves.format_version == b.moves.format_version,
        a.moves.assignment_generations@ == b.moves.assignment_generations@,
        a.moves.intents.len() == b.moves.intents.len(),
        forall|i: int|
            0 <= i < a.moves.intents.len() ==> (#[trigger] a.moves.intents@[i])@
                == b.moves.intents@[i]@,
{
    assert(views(a.nodes@).len() == views(b.nodes@).len());
    assert(views(a.assignments@).len() == views(b.assignments@).len());
    assert(views(a.moves.intents@).len() == views(b.moves.intents@).len());
    assert forall|i: int| 0 <= i < a.nodes.len() implies (#[trigger] a.nodes@[i])@
        == b.nodes@[i]@ by {
        assert(views(a.nodes@)[i] == views(b.nodes@)[i]);
    }
    assert forall|i: int| 0 <= i < a.assignments.len() implies (#[trigger] a.assignments@[i])@
        == b.assignments@[i]@ by {
        assert(views(a.assignments@)[i] == views(b.assignments@)[i]);
    }
    assert forall|i: int| 0 <= i < a.moves.intents.len() implies (#[trigger] a.moves.intents@[i])@
        == b.moves.intents@[i]@ by {
        assert(views(a.moves.intents@)[i] == views(b.moves.intents@)[i]);
    }
}

/// A transition reports the outcome of a move command, and nothing else; and a command belongs to
/// the operation that it names.
pub proof fn lemma_reported(state: ClusterStateView, change: ChangeView)
    ensures
        match change {
            ChangeView::Move(command) => {
                &&& reported(state, change) == Some(move_outcome(state, command))
                &&& command.operation() == match command {
                    CommandView::Begin(intent) => intent.operation_id,
                    CommandView::MarkReady { operation_id, .. } => operation_id,
                    CommandView::Commit { operation_id } => operation_id,
                    CommandView::Abort { operation_id } => operation_id,
                    CommandView::Finish { operation_id } => operation_id,
                }
            },
            _ => reported(state, change) is None,
        },
        counters_fit(state, change) <==> !(change is BumpModelVersion && state.model_version
            == u64::MAX),
{
}

} // verus!
