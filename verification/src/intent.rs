//! Planning of durable moves: the intent of a transition, its deterministic operation id, the
//! evidence of its members, and the bounded retries of its commands.

use vstd::prelude::*;
use vstd::utf8::encode_utf8;

use crate::document::{
    AssignmentView, ClusterState, ClusterStateView, EvidenceView, IntentView, MOVE_INTENT_VERSION,
    MemberView, MoveCommandOutcome, MoveInitialAuthority, MoveIntent, MoveIntentPhase,
    MoveMemberEvidence, MoveMemberIdentity, MoveProposalResult, MoveRecoveryEvidence, NodeId,
    PhaseView, ShardAssignment, lemma_node_set, node_set, sort_nodes,
};
use crate::error::{ControlError, ControlFault, ShardError};
use crate::fnv::{FNV_OFFSET, fnv, le_words, lemma_fnv_append, mix_bytes, mix_u64};
use crate::keyed::{Keyed, has_key, sort_by_key, sorted_by_key, views};
use crate::move_intent::{
    begin_valid, identities_hold, identity_holds, members_cover, predicate_holds,
};
use crate::text::{lemma_normalized_idempotent, normalized, normalized_move_endpoint};

verus! {

/// How often a command is proposed before its failure is final.
pub const COMMAND_ATTEMPTS: u32 = 3;

// ---- The operation id ----------------------------------------------------------------------

/// The word that stands for the side that served first.
pub open spec fn authority_word(authority: MoveInitialAuthority) -> u64 {
    match authority {
        MoveInitialAuthority::Expected => 1,
        MoveInitialAuthority::Desired => 2,
    }
}

/// The bytes of the replicas, in their order.
pub open spec fn replica_words(replicas: Seq<NodeId>) -> Seq<u64>
    decreases replicas.len(),
{
    if replicas.len() == 0 {
        Seq::empty()
    } else {
        replica_words(replicas.drop_last()) + le_words(replicas.last().0)
    }
}

/// The words of an assignment: position, primary, the number of replicas, the replicas.
pub open spec fn assignment_words(assignment: AssignmentView) -> Seq<u64> {
    le_words(assignment.position as u64) + le_words(assignment.primary.0) + le_words(
        assignment.replicas.len() as u64,
    ) + replica_words(assignment.replicas)
}

/// The bytes of the members' nodes and endpoints, in their order.
pub open spec fn member_words(members: Seq<MemberView>) -> Seq<u64>
    decreases members.len(),
{
    if members.len() == 0 {
        Seq::empty()
    } else {
        member_words(members.drop_last()) + le_words(members.last().node.0) + encode_utf8(
            members.last().endpoint,
        ).map_values(|b: u8| b as u64)
    }
}

/// The bytes of the immutable transition predicate.
pub open spec fn predicate_words(intent: IntentView) -> Seq<u64> {
    le_words(intent.intent_version as u64) + le_words(intent.position as u64) + le_words(
        intent.expected_assignment_generation,
    ) + le_words(intent.placement_generation) + le_words(intent.live_generation) + le_words(
        intent.source_fence_generation,
    ) + le_words(authority_word(intent.initial_authority)) + assignment_words(intent.expected)
        + assignment_words(intent.desired) + member_words(intent.members)
}

/// The operation id of a transition: the hash of its predicate, where zero, which is no
/// operation, becomes one.
pub open spec fn operation_of(intent: IntentView) -> u64 {
    let hash = fnv(FNV_OFFSET, predicate_words(intent));
    if hash == 0 {
        1
    } else {
        hash
    }
}

fn mix_assignment(hash: u64, assignment: &ShardAssignment) -> (r: u64)
    ensures
        r == fnv(hash, assignment_words(assignment@)),
{
    let ghost p0 = le_words(assignment.position as u64);
    let ghost p1 = p0 + le_words(assignment.primary.0);
    let ghost p2 = p1 + le_words(assignment@.replicas.len() as u64);
    let mut h: u64 = mix_u64(hash, assignment.position as u64);
    proof {
        lemma_fnv_append(hash, p0, le_words(assignment.primary.0));
        lemma_fnv_append(hash, p1, le_words(assignment@.replicas.len() as u64));
    }
    h = mix_u64(h, assignment.primary.0);
    h = mix_u64(h, assignment.replicas.len() as u64);
    let mut i: usize = 0;
    assert(assignment.replicas@.take(0) =~= Seq::<NodeId>::empty());
    assert(p2 + Seq::<u64>::empty() =~= p2);
    while i < assignment.replicas.len()
        invariant
            i <= assignment.replicas.len(),
            h == fnv(hash, p2 + replica_words(assignment.replicas@.take(i as int))),
        decreases assignment.replicas.len() - i,
    {
        let replica = assignment.replicas[i];
        proof {
            let done = replica_words(assignment.replicas@.take(i as int));
            assert(assignment.replicas@.take(i + 1).drop_last() =~= assignment.replicas@.take(
                i as int,
            ));
            lemma_fnv_append(hash, p2 + done, le_words(replica.0));
            assert(p2 + done + le_words(replica.0) =~= p2 + (done + le_words(replica.0)));
        }
        h = mix_u64(h, replica.0);
        i = i + 1;
    }
    assert(assignment.replicas@.take(i as int) =~= assignment.replicas@);
    h
}

/// The operation id of a transition.
///
/// Two transitions with one id do no harm: a begin also compares the whole predicate.
pub fn operation_id(intent: &MoveIntent) -> (r: u64)
    ensures
        r == operation_of(intent@),
        r != 0,
{
    let authority: u64 = match intent.initial_authority {
        MoveInitialAuthority::Expected => 1,
        MoveInitialAuthority::Desired => 2,
    };
    let ghost w0 = le_words(intent.intent_version as u64);
    let ghost w1 = w0 + le_words(intent.position as u64);
    let ghost w2 = w1 + le_words(intent.expected_assignment_generation);
    let ghost w3 = w2 + le_words(intent.placement_generation);
    let ghost w4 = w3 + le_words(intent.live_generation);
    let ghost w5 = w4 + le_words(intent.source_fence_generation);
    let ghost w6 = w5 + le_words(authority);
    let ghost w7 = w6 + assignment_words(intent@.expected);
    let ghost w8 = w7 + assignment_words(intent@.desired);
    proof {
        lemma_fnv_append(FNV_OFFSET, w0, le_words(intent.position as u64));
        lemma_fnv_append(FNV_OFFSET, w1, le_words(intent.expected_assignment_generation));
        lemma_fnv_append(FNV_OFFSET, w2, le_words(intent.placement_generation));
        lemma_fnv_append(FNV_OFFSET, w3, le_words(intent.live_generation));
        lemma_fnv_append(FNV_OFFSET, w4, le_words(intent.source_fence_generation));
        lemma_fnv_append(FNV_OFFSET, w5, le_words(authority));
        lemma_fnv_append(FNV_OFFSET, w6, assignment_words(intent@.expected));
        lemma_fnv_append(FNV_OFFSET, w7, assignment_words(intent@.desired));
    }
    let mut hash: u64 = mix_u64(FNV_OFFSET, intent.intent_version as u64);
    hash = mix_u64(hash, intent.position as u64);
    hash = mix_u64(hash, intent.expected_assignment_generation);
    hash = mix_u64(hash, intent.placement_generation);
    hash = mix_u64(hash, intent.live_generation);
    hash = mix_u64(hash, intent.source_fence_generation);
    hash = mix_u64(hash, authority);
    hash = mix_assignment(hash, &intent.expected);
    hash = mix_assignment(hash, &intent.desired);
    let ghost all = intent@.members;
    let mut i: usize = 0;
    assert(all.take(0) =~= Seq::<MemberView>::empty());
    assert(w8 + Seq::<u64>::empty() =~= w8);
    while i < intent.members.len()
        invariant
            i <= intent.members.len(),
            all == intent@.members,
            hash == fnv(FNV_OFFSET, w8 + member_words(all.take(i as int))),
        decreases intent.members.len() - i,
    {
        let member = &intent.members[i];
        proof {
            let done = member_words(all.take(i as int));
            let endpoint = encode_utf8(member.endpoint@).map_values(|b: u8| b as u64);
            let node = le_words(member.node.0);
            assert(all.take(i + 1).drop_last() =~= all.take(i as int));
            assert(all.take(i + 1).last() == member@);
            lemma_fnv_append(FNV_OFFSET, w8 + done, node);
            lemma_fnv_append(FNV_OFFSET, w8 + done + node, endpoint);
            assert(w8 + done + node + endpoint =~= w8 + (done + node + endpoint));
        }
        hash = mix_u64(hash, member.node.0);
        hash = mix_bytes(hash, member.endpoint.as_str().as_bytes());
        i = i + 1;
    }
    assert(all.take(i as int) =~= all);
    if hash == 0 {
        1
    } else {
        hash
    }
}

// ---- The intent ----------------------------------------------------------------------------

/// The nodes of a transition, in increasing order.
pub open spec fn transition_nodes(expected: AssignmentView, desired: AssignmentView) -> Seq<
    NodeId,
> {
    node_set(expected.nodes() + desired.nodes())
}

/// The identities of nodes as the document registers them.
pub open spec fn registered_members(
    state: ClusterStateView,
    nodes: Seq<NodeId>,
) -> Seq<MemberView> {
    nodes.map_values(
        |n: NodeId| MemberView { node: n, endpoint: normalized(state.endpoint(n)->0) },
    )
}

/// The intent of a transition, but for its operation id.
pub open spec fn planned_transition(
    state: ClusterStateView,
    expected: AssignmentView,
    desired: AssignmentView,
    live_generation: u64,
    source_fence_generation: u64,
    initial_authority: MoveInitialAuthority,
) -> IntentView {
    IntentView {
        intent_version: MOVE_INTENT_VERSION,
        operation_id: 0,
        position: expected.position,
        expected_assignment_generation: state.moves.generation(expected.position),
        placement_generation: state.placement_generation,
        expected,
        desired,
        members: registered_members(state, transition_nodes(expected, desired)),
        live_generation,
        source_fence_generation,
        initial_authority,
        phase: PhaseView::Preparing,
    }
}

/// The intent of a transition.
pub open spec fn planned_intent(
    state: ClusterStateView,
    expected: AssignmentView,
    desired: AssignmentView,
    live_generation: u64,
    source_fence_generation: u64,
    initial_authority: MoveInitialAuthority,
) -> IntentView {
    let transition = planned_transition(
        state,
        expected,
        desired,
        live_generation,
        source_fence_generation,
        initial_authority,
    );
    IntentView { operation_id: operation_of(transition), ..transition }
}

/// The first of the nodes, from index `i` on, that has no registered endpoint.
pub open spec fn first_unregistered(
    state: ClusterStateView,
    nodes: Seq<NodeId>,
    i: nat,
) -> Option<NodeId>
    decreases nodes.len() - i,
{
    if i >= nodes.len() {
        None
    } else if state.endpoint(nodes[i as int]) is None {
        Some(nodes[i as int])
    } else {
        first_unregistered(state, nodes, i + 1)
    }
}

/// Plans a transition against a document. The first node without a registered endpoint, in
/// increasing order, makes it impossible.
pub fn build_intent(
    state: &ClusterState,
    expected: ShardAssignment,
    desired: ShardAssignment,
    live_generation: u64,
    source_fence_generation: u64,
    initial_authority: MoveInitialAuthority,
) -> (r: Result<MoveIntent, ShardError>)
    ensures
        match first_unregistered(state@, transition_nodes(expected@, desired@), 0) {
            None => r matches Ok(intent) && intent@ == planned_intent(
                state@,
                expected@,
                desired@,
                live_generation,
                source_fence_generation,
                initial_authority,
            ),
            Some(node) => r == Err::<MoveIntent, ShardError>(
                ShardError::ControlPlane(ControlFault::MemberUnregistered { node }),
            ),
        },
{
    let mut named: Vec<NodeId> = Vec::new();
    push_nodes(&expected, &mut named);
    push_nodes(&desired, &mut named);
    assert(named@ =~= expected@.nodes() + desired@.nodes());
    let nodes = sort_nodes(named);
    let mut members: Vec<MoveMemberIdentity> = Vec::new();
    let mut i: usize = 0;
    while i < nodes.len()
        invariant
            i <= nodes.len(),
            nodes@ == transition_nodes(expected@, desired@),
            members.len() == i,
            first_unregistered(state@, nodes@, 0) == first_unregistered(state@, nodes@, i as nat),
            forall|j: int|
                0 <= j < i ==> (#[trigger] members@[j])@ == registered_members(state@, nodes@)[j],
        decreases nodes.len() - i,
    {
        let node = nodes[i];
        match state.endpoint(node) {
            Some(endpoint) => {
                let endpoint = normalized_move_endpoint(endpoint.as_str());
                members.push(MoveMemberIdentity { node, endpoint });
            },
            None => {
                return Err(
                    ShardError::ControlPlane(ControlFault::MemberUnregistered { node }),
                );
            },
        }
        i = i + 1;
    }
    let position: u32 = expected.position;
    let mut intent = MoveIntent {
        intent_version: MOVE_INTENT_VERSION,
        operation_id: 0,
        position,
        expected_assignment_generation: state.moves.assignment_generation(position),
        placement_generation: state.placement_generation,
        expected,
        desired,
        members,
        live_generation,
        source_fence_generation,
        initial_authority,
        phase: MoveIntentPhase::Preparing,
    };
    assert(intent@.members =~= registered_members(state@, nodes@));
    assert(intent@ == planned_transition(
        state@,
        expected@,
        desired@,
        live_generation,
        source_fence_generation,
        initial_authority,
    ));
    intent.operation_id = operation_id(&intent);
    Ok(intent)
}

/// Adds the nodes of an assignment, the primary first.
fn push_nodes(assignment: &ShardAssignment, nodes: &mut Vec<NodeId>)
    ensures
        final(nodes)@ == old(nodes)@ + assignment@.nodes(),
{
    nodes.push(assignment.primary);
    let mut i: usize = 0;
    assert(nodes@ =~= old(nodes)@ + assignment@.nodes().take(1));
    while i < assignment.replicas.len()
        invariant
            i <= assignment.replicas.len(),
            nodes@ == old(nodes)@ + assignment@.nodes().take(i + 1),
        decreases assignment.replicas.len() - i,
    {
        nodes.push(assignment.replicas[i]);
        i = i + 1;
        assert(nodes@ =~= old(nodes)@ + assignment@.nodes().take(i + 1));
    }
    assert(assignment@.nodes().take(i + 1) =~= assignment@.nodes());
}

/// Every node of the assignment is registered at an endpoint, and no two at the same.
pub open spec fn routable(state: ClusterStateView, assignment: AssignmentView) -> bool {
    &&& forall|n: NodeId| #[trigger]
        assignment.nodes().contains(n) ==> {
            &&& state.endpoint(n) is Some
            &&& normalized(state.endpoint(n)->0).len() > 0
        }
    &&& forall|a: NodeId, b: NodeId|
        #![trigger assignment.nodes().contains(a), assignment.nodes().contains(b)]
        assignment.nodes().contains(a) && assignment.nodes().contains(b) && a != b ==> normalized(
            state.endpoint(a)->0,
        ) != normalized(state.endpoint(b)->0)
}

/// A planned transition between two different assignments of one existing position, each on
/// distinct nodes at distinct non-empty endpoints, may begin; and where the document still has
/// the expected assignment, it has everything that the intent is planned against.
pub proof fn lemma_planned_intent_begins(
    state: ClusterStateView,
    expected: AssignmentView,
    desired: AssignmentView,
    live_generation: u64,
    source_fence_generation: u64,
    initial_authority: MoveInitialAuthority,
)
    requires
        expected.position == desired.position,
        expected.position < state.num_shards,
        expected != desired,
        expected.nodes().no_duplicates(),
        desired.nodes().no_duplicates(),
        initial_authority is Expected ==> live_generation != 0,
        routable(state, expected),
        routable(state, desired),
    ensures
        ({
            let intent = planned_intent(
                state,
                expected,
                desired,
                live_generation,
                source_fence_generation,
                initial_authority,
            );
            &&& begin_valid(state, intent)
            &&& state.assignment(expected.position) == Some(expected) ==> predicate_holds(
                state,
                intent,
            )
        }),
{
    let intent = planned_intent(
        state,
        expected,
        desired,
        live_generation,
        source_fence_generation,
        initial_authority,
    );
    let all = expected.nodes() + desired.nodes();
    let nodes = transition_nodes(expected, desired);
    lemma_node_set(all);
    let members = intent.members;
    assert forall|n: NodeId| #[trigger] all.contains(n) <==> (expected.nodes().contains(n)
        || desired.nodes().contains(n)) by {
        if expected.nodes().contains(n) {
            let i = choose|i: int| 0 <= i < expected.nodes().len() && expected.nodes()[i] == n;
            assert(all[i] == n);
        }
        if desired.nodes().contains(n) {
            let i = choose|i: int| 0 <= i < desired.nodes().len() && desired.nodes()[i] == n;
            assert(all[expected.nodes().len() + i] == n);
        }
        if all.contains(n) {
            let i = choose|i: int| 0 <= i < all.len() && all[i] == n;
            if i < expected.nodes().len() {
                assert(expected.nodes()[i] == n);
            } else {
                assert(desired.nodes()[i - expected.nodes().len()] == n);
            }
        }
    }
    assert forall|i: int, j: int| 0 <= i < j < members.len() implies MoveMemberIdentity::key_of(
        #[trigger] members[i],
    ) < MoveMemberIdentity::key_of(#[trigger] members[j]) by {
        assert(NodeId::key_of(nodes[i]) < NodeId::key_of(nodes[j]));
    }
    assert forall|n: NodeId|
        has_key::<MoveMemberIdentity>(members, n.0) <==> (#[trigger] expected.nodes().contains(n)
            || desired.nodes().contains(n)) by {
        assert(all.contains(n) <==> nodes.contains(n));
        if has_key::<MoveMemberIdentity>(members, n.0) {
            let i = choose|i: int|
                0 <= i < members.len() && MoveMemberIdentity::key_of(#[trigger] members[i]) == n.0;
            assert(nodes[i] == n);
        }
        if nodes.contains(n) {
            let i = choose|i: int| 0 <= i < nodes.len() && nodes[i] == n;
            assert(MoveMemberIdentity::key_of(members[i]) == n.0);
        }
    }
    assert(members_cover(intent));
    assert forall|i: int| 0 <= i < members.len() implies identity_holds(
        state,
        #[trigger] members[i],
    ) by {
        assert(nodes.contains(nodes[i]));
        assert(all.contains(nodes[i]));
        assert(expected.nodes().contains(nodes[i]) || desired.nodes().contains(nodes[i]));
        lemma_normalized_idempotent(state.endpoint(nodes[i])->0);
    }
    assert forall|i: int, j: int|
        0 <= i < j < members.len() && expected.nodes().contains((#[trigger] members[i]).node)
            && expected.nodes().contains((#[trigger] members[j]).node) implies members[i].endpoint
        != members[j].endpoint by {
        assert(NodeId::key_of(nodes[i]) < NodeId::key_of(nodes[j]));
    }
    assert forall|i: int, j: int|
        0 <= i < j < members.len() && desired.nodes().contains((#[trigger] members[i]).node)
            && desired.nodes().contains((#[trigger] members[j]).node) implies members[i].endpoint
        != members[j].endpoint by {
        assert(NodeId::key_of(nodes[i]) < NodeId::key_of(nodes[j]));
    }
    assert(identities_hold(state, intent));
}

// ---- Evidence and fences -------------------------------------------------------------------

/// The evidence of one member, from its content fingerprint.
pub fn member_evidence(
    node: NodeId,
    fingerprint_lo: u64,
    fingerprint_hi: u64,
    live_count: u64,
) -> (r: MoveMemberEvidence)
    ensures
        r == (MoveMemberEvidence { node, fingerprint_lo, fingerprint_hi, live_count }),
{
    MoveMemberEvidence { node, fingerprint_lo, fingerprint_hi, live_count }
}

/// The evidence of a group: its members in the order of their nodes.
pub fn recovery_evidence(live_generation: u64, members: Vec<MoveMemberEvidence>) -> (r:
    MoveRecoveryEvidence)
    ensures
        r@ == (EvidenceView {
            live_generation,
            members: sorted_by_key::<MoveMemberEvidence>(members@),
        }),
{
    assert(views(members@) =~= members@);
    let sorted = sort_by_key(members);
    assert(views(sorted@) =~= sorted@);
    MoveRecoveryEvidence { live_generation, members: sorted }
}

/// The source fence of a transition to an authority that is already live: none where the
/// committed source and the live authority are one physical slot, and otherwise the live
/// generation, which is at least one.
pub open spec fn live_authority_fence(source: Seq<char>, live: Seq<char>, generation: u64) -> u64 {
    if normalized(source) == normalized(live) {
        0
    } else if generation == 0 {
        1
    } else {
        generation
    }
}

/// Plans the source fence of a transition to an authority that is already live at
/// `live_endpoint`.
pub fn plan_live_authority_fence(
    state: &ClusterState,
    expected: &ShardAssignment,
    live_endpoint: &str,
    generation: u64,
) -> (r: Result<u64, ShardError>)
    ensures
        match r {
            Ok(fence) => {
                &&& state@.endpoint(expected.primary) is Some
                &&& fence == live_authority_fence(
                    state@.endpoint(expected.primary)->0,
                    live_endpoint@,
                    generation,
                )
            },
            Err(e) => {
                &&& state@.endpoint(expected.primary) is None
                &&& e == ShardError::ControlPlane(
                    ControlFault::MemberUnregistered { node: expected.primary },
                )
            },
        },
{
    match state.endpoint(expected.primary) {
        Some(source) => {
            if normalized_move_endpoint(source.as_str()) == normalized_move_endpoint(
                live_endpoint,
            ) {
                Ok(0)
            } else if generation == 0 {
                Ok(1)
            } else {
                Ok(generation)
            }
        },
        None => Err(
            ShardError::ControlPlane(ControlFault::MemberUnregistered { node: expected.primary }),
        ),
    }
}

// ---- Proposing -----------------------------------------------------------------------------

/// What to do after one attempt at a command.
#[derive(Debug, PartialEq, Eq)]
pub enum Attempt {
    /// The command is in force.
    Accepted,
    /// It failed for good.
    Failed(ShardError),
    /// Try again, after a moment.
    Retry,
}

/// Decides on the answer to an attempt, counted from zero. A command that was applied, now or
/// before, is in force. One that lost its predicate or is invalid fails at once. A failure of
/// the control plane itself is final only at the last attempt.
pub fn after_attempt(
    attempt: u32,
    answer: Result<MoveProposalResult, ControlError>,
    operation_id: u64,
    context: &str,
) -> (r: Attempt)
    ensures
        match answer {
            Ok(result) => match result.outcome {
                MoveCommandOutcome::Applied => r is Accepted,
                MoveCommandOutcome::AlreadyApplied => r is Accepted,
                MoveCommandOutcome::Conflict => r matches Attempt::Failed(
                    ShardError::ControlPlane(
                        ControlFault::LostPredicate { context: c, operation_id: id },
                    ),
                ) && c@ == context@ && id == operation_id,
                MoveCommandOutcome::Invalid => r matches Attempt::Failed(
                    ShardError::ControlPlane(
                        ControlFault::Rejected { context: c, operation_id: id },
                    ),
                ) && c@ == context@ && id == operation_id,
            },
            Err(error) => if attempt + 1 < COMMAND_ATTEMPTS {
                r is Retry
            } else {
                r == Attempt::Failed(ShardError::ControlPlane(ControlFault::Control(error)))
            },
        },
        answer is Err && attempt < 2 ==> r is Retry,
        answer is Err && attempt >= 2 ==> r is Failed,
{
    match answer {
        Ok(result) => match result.outcome {
            MoveCommandOutcome::Applied => Attempt::Accepted,
            MoveCommandOutcome::AlreadyApplied => Attempt::Accepted,
            MoveCommandOutcome::Conflict => Attempt::Failed(
                ShardError::ControlPlane(
                    ControlFault::LostPredicate { context: context.to_owned(), operation_id },
                ),
            ),
            MoveCommandOutcome::Invalid => Attempt::Failed(
                ShardError::ControlPlane(
                    ControlFault::Rejected { context: context.to_owned(), operation_id },
                ),
            ),
        },
        Err(error) => if attempt < COMMAND_ATTEMPTS - 1 {
            Attempt::Retry
        } else {
            Attempt::Failed(ShardError::from(error))
        },
    }
}

} // verus!
