//! Cold-start resolution of durable moves.
//!
//! Each recorded intent is resolved from its recorded authority, exact fence generations,
//! endpoint and placement identities and member fingerprints. Reachability alone never selects
//! a side; anything ambiguous fails the start and keeps the intent. The work on the shards and
//! the proposals are done by the caller: `Recovery` says what to do next and decides on each
//! answer.

use vstd::prelude::*;

use crate::document::{
    ClusterState, ClusterStateView, CommandView, EvidenceView, IntentView, MOVE_INTENT_VERSION,
    MemberView, MoveCommand, MoveInitialAuthority, MoveIntent, MoveIntentPhase,
    MoveMemberEvidence, MoveMemberIdentity, MoveRecoveryEvidence, NodeId, PhaseView,
    ShardAssignment, node_set, sort_nodes,
};
use crate::error::{ControlFault, ShardError};
use crate::intent::{member_evidence, recovery_evidence};
use crate::keyed::{Keyed, canonical, find_key, first_with_key, sorted_by_key, views};
use crate::move_intent::{
    distinct_endpoints, endpoints_distinct, find_operation, named_nodes, names_exactly,
    names_node, operation_index, saturating_next, share_endpoint, shares_endpoint,
};
use crate::text::{normalized, normalized_move_endpoint};

verus! {

// ---- What has to hold before an intent is touched ------------------------------------------

/// What is wrong with the first member, from index `i` on, that the document registers
/// otherwise.
pub open spec fn member_fault(
    state: ClusterStateView,
    operation_id: u64,
    members: Seq<MemberView>,
    i: nat,
) -> Option<ControlFault>
    decreases members.len() - i,
{
    if i >= members.len() {
        None
    } else {
        let member = members[i as int];
        match state.endpoint(member.node) {
            None => Some(ControlFault::EndpointGone { operation_id, node: member.node }),
            Some(endpoint) => if normalized(endpoint) != member.endpoint {
                Some(ControlFault::EndpointChanged { operation_id, node: member.node })
            } else {
                member_fault(state, operation_id, members, i + 1)
            },
        }
    }
}

/// The members are the nodes of both assignments in order, and no assignment has two of them
/// at one endpoint.
pub open spec fn members_canonical(intent: IntentView) -> bool {
    &&& named_nodes::<MoveMemberIdentity>(intent.members) == node_set(
        intent.expected.nodes() + intent.desired.nodes(),
    )
    &&& distinct_endpoints(intent.expected, intent.members)
    &&& distinct_endpoints(intent.desired, intent.members)
}

/// The first reason why an intent cannot be resolved against a document.
pub open spec fn identity_fault(state: ClusterStateView, intent: IntentView) -> Option<
    ControlFault,
> {
    let operation_id = intent.operation_id;
    if intent.intent_version != MOVE_INTENT_VERSION || intent.position >= state.num_shards
        || intent.placement_generation != state.placement_generation {
        Some(ControlFault::Incompatible { operation_id })
    } else if !members_canonical(intent) {
        Some(ControlFault::NonCanonicalMembers { operation_id })
    } else if member_fault(state, operation_id, intent.members, 0) is Some {
        member_fault(state, operation_id, intent.members, 0)
    } else if intent.phase is Committed {
        if state.assignment(intent.position) != Some(intent.desired) || state.moves.generation(
            intent.position,
        ) != saturating_next(intent.expected_assignment_generation) {
            Some(ControlFault::CommittedPredicate { operation_id })
        } else {
            None
        }
    } else if state.assignment(intent.position) != Some(intent.expected) || state.moves.generation(
        intent.position,
    ) != intent.expected_assignment_generation {
        Some(ControlFault::ExpectedPredicate { operation_id })
    } else {
        None
    }
}

/// Every node that an assignment names, the primary first.
pub fn assignment_nodes(assignment: &ShardAssignment) -> (nodes: Vec<NodeId>)
    ensures
        nodes@ == assignment@.nodes(),
{
    let mut nodes: Vec<NodeId> = Vec::new();
    nodes.push(assignment.primary);
    let mut i: usize = 0;
    assert(nodes@ =~= assignment@.nodes().take(1));
    while i < assignment.replicas.len()
        invariant
            i <= assignment.replicas.len(),
            nodes@ == assignment@.nodes().take(i + 1),
        decreases assignment.replicas.len() - i,
    {
        nodes.push(assignment.replicas[i]);
        i = i + 1;
        assert(nodes@ =~= assignment@.nodes().take(i + 1));
    }
    assert(assignment@.nodes().take(i + 1) =~= assignment@.nodes());
    nodes
}

/// The recorded identity of a node.
pub fn member_identity<'a>(intent: &'a MoveIntent, node: NodeId) -> (r: Result<
    &'a MoveMemberIdentity,
    ShardError,
>)
    ensures
        match r {
            Ok(member) => first_with_key::<MoveMemberIdentity>(intent@.members, node.0) == Some(
                member@,
            ),
            Err(e) => {
                &&& first_with_key::<MoveMemberIdentity>(intent@.members, node.0) is None
                &&& e == ShardError::ControlPlane(
                    ControlFault::LacksIdentity { operation_id: intent.operation_id, node },
                )
            },
        },
{
    match find_key(&intent.members, node.0) {
        Some(i) => Ok(&intent.members[i]),
        None => Err(
            ShardError::ControlPlane(
                ControlFault::LacksIdentity { operation_id: intent.operation_id, node },
            ),
        ),
    }
}

fn members_are_canonical(intent: &MoveIntent) -> (r: bool)
    ensures
        r == members_canonical(intent@),
{
    let mut nodes = assignment_nodes(&intent.expected);
    let mut desired = assignment_nodes(&intent.desired);
    nodes.append(&mut desired);
    let nodes = sort_nodes(nodes);
    names_exactly(&intent.members, &nodes) && endpoints_distinct(&intent.expected, &intent.members)
        && endpoints_distinct(&intent.desired, &intent.members)
}

/// Whether an intent still fits the document it is recorded in.
pub fn validate_identity(state: &ClusterState, intent: &MoveIntent) -> (r: Result<(), ShardError>)
    ensures
        match r {
            Ok(()) => identity_fault(state@, intent@) is None,
            Err(e) => {
                &&& identity_fault(state@, intent@) is Some
                &&& e == ShardError::ControlPlane(identity_fault(state@, intent@)->0)
            },
        },
{
    let operation_id: u64 = intent.operation_id;
    if intent.intent_version != MOVE_INTENT_VERSION || intent.position >= state.num_shards
        || intent.placement_generation != state.placement_generation {
        return Err(ShardError::ControlPlane(ControlFault::Incompatible { operation_id }));
    }
    if !members_are_canonical(intent) {
        return Err(ShardError::ControlPlane(ControlFault::NonCanonicalMembers { operation_id }));
    }
    let mut i: usize = 0;
    while i < intent.members.len()
        invariant
            i <= intent.members.len(),
            operation_id == intent.operation_id,
            intent.intent_version == MOVE_INTENT_VERSION,
            intent.position < state.num_shards,
            intent.placement_generation == state.placement_generation,
            members_canonical(intent@),
            member_fault(state@, operation_id, intent@.members, 0) == member_fault(
                state@,
                operation_id,
                intent@.members,
                i as nat,
            ),
        decreases intent.members.len() - i,
    {
        let member = &intent.members[i];
        assert(intent@.members[i as int] == member@);
        match state.endpoint(member.node) {
            None => {
                return Err(
                    ShardError::ControlPlane(
                        ControlFault::EndpointGone { operation_id, node: member.node },
                    ),
                );
            },
            Some(endpoint) => {
                if normalized_move_endpoint(endpoint.as_str()) != member.endpoint {
                    return Err(
                        ShardError::ControlPlane(
                            ControlFault::EndpointChanged { operation_id, node: member.node },
                        ),
                    );
                }
            },
        }
        i = i + 1;
    }
    let generation: u64 = state.moves.assignment_generation(intent.position);
    match &intent.phase {
        MoveIntentPhase::Committed(_) => {
            let installed = match state.assignment(intent.position) {
                Some(assignment) => *assignment == intent.desired,
                None => false,
            };
            if !installed || generation != intent.expected_assignment_generation.saturating_add(
                1,
            ) {
                return Err(
                    ShardError::ControlPlane(ControlFault::CommittedPredicate { operation_id }),
                );
            }
        },
        _ => {
            let expected = match state.assignment(intent.position) {
                Some(assignment) => *assignment == intent.expected,
                None => false,
            };
            if !expected || generation != intent.expected_assignment_generation {
                return Err(
                    ShardError::ControlPlane(ControlFault::ExpectedPredicate { operation_id }),
                );
            }
        },
    }
    Ok(())
}

/// Two intents cannot both be active.
pub open spec fn overlap(a: IntentView, b: IntentView) -> bool {
    a.operation_id == b.operation_id || share_endpoint(a, b)
}

/// The first reason why a set of intents cannot be resolved at all.
pub open spec fn intent_set_fault(intents: Seq<IntentView>) -> Option<ControlFault> {
    if !canonical::<MoveIntent>(intents) {
        Some(ControlFault::NonCanonicalPositions)
    } else if exists|i: int, j: int|
        0 <= i < j < intents.len() && overlap(#[trigger] intents[i], #[trigger] intents[j]) {
        Some(ControlFault::OverlappingIntents)
    } else {
        None
    }
}

/// Whether the intents of a document are in order and independent of each other.
pub fn validate_intent_set(state: &ClusterState) -> (r: Result<(), ShardError>)
    ensures
        match r {
            Ok(()) => intent_set_fault(state@.moves.intents) is None,
            Err(e) => {
                &&& intent_set_fault(state@.moves.intents) is Some
                &&& e == ShardError::ControlPlane(intent_set_fault(state@.moves.intents)->0)
            },
        },
{
    let intents = &state.moves.intents;
    let ghost all = state@.moves.intents;
    let mut i: usize = 1;
    while i < intents.len()
        invariant
            1 <= i,
            i <= intents.len() || intents.len() == 0,
            all == views(intents@),
            forall|a: int, b: int|
                0 <= a < b < i && b < intents.len() ==> MoveIntent::key_of(#[trigger] all[a])
                    < MoveIntent::key_of(#[trigger] all[b]),
            all == state@.moves.intents,
        decreases intents.len() - i,
    {
        assert(all[i - 1] == intents@[i - 1]@ && all[i as int] == intents@[i as int]@);
        if intents[i - 1].position >= intents[i].position {
            assert(!canonical::<MoveIntent>(all)) by {
                if canonical::<MoveIntent>(all) {
                    assert(MoveIntent::key_of(all[i - 1]) < MoveIntent::key_of(all[i as int]));
                }
            }
            return Err(ShardError::ControlPlane(ControlFault::NonCanonicalPositions));
        }
        assert forall|a: int, b: int| 0 <= a < b < i + 1 implies MoveIntent::key_of(
            #[trigger] all[a],
        ) < MoveIntent::key_of(#[trigger] all[b]) by {
            if b == i && a < i - 1 {
                assert(MoveIntent::key_of(all[a]) < MoveIntent::key_of(all[i - 1]));
            }
        }
        i = i + 1;
    }
    assert(canonical::<MoveIntent>(all));
    let mut a: usize = 0;
    while a < intents.len()
        invariant
            a <= intents.len(),
            all == views(intents@),
            all == state@.moves.intents,
            canonical::<MoveIntent>(all),
            forall|x: int, y: int|
                0 <= x < a && x < y < all.len() ==> !overlap(#[trigger] all[x], #[trigger] all[y]),
        decreases intents.len() - a,
    {
        let mut b: usize = a + 1;
        while b < intents.len()
            invariant
                a < b <= intents.len(),
                all == views(intents@),
                all == state@.moves.intents,
                canonical::<MoveIntent>(all),
                forall|y: int|
                    a < y < b ==> !overlap(all[a as int], #[trigger] all[y]),
            decreases intents.len() - b,
        {
            assert(all[a as int] == intents@[a as int]@ && all[b as int] == intents@[b as int]@);
            if intents[a].operation_id == intents[b].operation_id || shares_endpoint(
                &intents[a],
                &intents[b],
            ) {
                assert(overlap(all[a as int], all[b as int]));
                return Err(ShardError::ControlPlane(ControlFault::OverlappingIntents));
            }
            b = b + 1;
        }
        a = a + 1;
    }
    Ok(())
}

// ---- One intent ----------------------------------------------------------------------------

/// Where the resolution of an intent stands. The numbers count desired members.
#[derive(Clone, Copy, Debug, PartialEq, Eq, Structural)]
pub enum Stage {
    /// Unfence the source that stays the authority.
    ReleaseSource,
    /// Discard the intent.
    Abort,
    /// See that the source is fenced as recorded.
    CheckSource,
    /// See that a desired member is not fenced.
    ProbeDesired(usize),
    /// Take the fingerprint of a desired member.
    MeasureDesired(usize),
    /// Record the evidence.
    MarkReady,
    /// Install the desired assignment.
    Commit,
    /// Unfence a source that stays in the desired group.
    ClearRetained,
    /// Drop the resolved intent.
    Finish,
    Done,
}

/// What the caller has to do next.
#[derive(Debug, PartialEq, Eq)]
pub enum RecoveryAction {
    /// Connect to the member and fence it at a generation; zero only asks. The answer is the
    /// fence that it then has.
    Fence { node: NodeId, endpoint: String, generation: u64 },
    /// Connect to the member and take away the fence of a generation. The answer is the fence
    /// that it then has.
    Unfence { node: NodeId, endpoint: String, generation: u64 },
    /// Connect to the member and take its content fingerprint.
    Fingerprint { node: NodeId, endpoint: String },
    /// Propose a command to the control plane.
    Propose { command: MoveCommand, context: String },
    /// The intent is resolved.
    Finished,
}

/// The view of `RecoveryAction`.
#[verifier::ext_equal]
pub enum ActionView {
    Fence { node: NodeId, endpoint: Seq<char>, generation: u64 },
    Unfence { node: NodeId, endpoint: Seq<char>, generation: u64 },
    Fingerprint { node: NodeId, endpoint: Seq<char> },
    Propose { command: CommandView, context: Seq<char> },
    Finished,
}

impl View for RecoveryAction {
    type V = ActionView;

    open spec fn view(&self) -> ActionView {
        match *self {
            RecoveryAction::Fence { node, endpoint, generation } => ActionView::Fence {
                node,
                endpoint: endpoint@,
                generation,
            },
            RecoveryAction::Unfence { node, endpoint, generation } => ActionView::Unfence {
                node,
                endpoint: endpoint@,
                generation,
            },
            RecoveryAction::Fingerprint { node, endpoint } => ActionView::Fingerprint {
                node,
                endpoint: endpoint@,
            },
            RecoveryAction::Propose { command, context } => ActionView::Propose {
                command: command@,
                context: context@,
            },
            RecoveryAction::Finished => ActionView::Finished,
        }
    }
}

/// What came of an action that did not fail.
#[derive(Clone, Copy, Debug, PartialEq, Eq, Structural)]
pub enum RecoveryEvent {
    /// The fence that the member has.
    Fence(u64),
    /// The content of the member.
    Fingerprint { fingerprint_lo: u64, fingerprint_hi: u64, live_count: u64 },
    /// The command is in force.
    Accepted,
}

/// The view of `Recovery`.
#[verifier::ext_equal]
pub struct RecoveryView {
    pub intent: IntentView,
    pub stage: Stage,
    pub evidence: Seq<MoveMemberEvidence>,
}

/// The resolution of one intent.
pub struct Recovery {
    intent: MoveIntent,
    stage: Stage,
    evidence: Vec<MoveMemberEvidence>,
}

impl View for Recovery {
    type V = RecoveryView;

    closed spec fn view(&self) -> RecoveryView {
        RecoveryView { intent: self.intent@, stage: self.stage, evidence: self.evidence@ }
    }
}

/// The source stays a member of the desired group.
pub open spec fn source_retained(intent: IntentView) -> bool {
    intent.desired.nodes().contains(intent.expected.primary)
}

/// A move that was still preparing while the expected side served is discarded; every other
/// one is taken to its end.
pub open spec fn discards(intent: IntentView) -> bool {
    intent.phase is Preparing && intent.initial_authority is Expected
}

/// Where the resolution of an intent starts.
pub open spec fn recovery_start(intent: IntentView) -> RecoveryView {
    RecoveryView {
        intent,
        stage: if discards(intent) {
            Stage::ReleaseSource
        } else {
            Stage::CheckSource
        },
        evidence: Seq::empty(),
    }
}

/// The evidence of all measured members.
pub open spec fn measured_evidence(r: RecoveryView) -> EvidenceView {
    EvidenceView {
        live_generation: r.intent.live_generation,
        members: sorted_by_key::<MoveMemberEvidence>(r.evidence),
    }
}

/// The evidence under which the move is made ready: what a ready intent has recorded, or what
/// was measured.
pub open spec fn ready_evidence(r: RecoveryView) -> EvidenceView {
    match r.intent.phase {
        PhaseView::Ready(recorded) => recorded,
        _ => measured_evidence(r),
    }
}

/// What follows once the desired assignment is in force.
pub open spec fn stage_after_commit(intent: IntentView) -> Stage {
    if source_retained(intent) {
        Stage::ClearRetained
    } else {
        Stage::Finish
    }
}

/// All desired members are measured: a ready move whose expected side served must find exactly
/// what it recorded; where the desired side served, its content may have moved on.
pub open spec fn after_attest(r: RecoveryView) -> Result<RecoveryView, ControlFault> {
    match r.intent.phase {
        PhaseView::Preparing => Ok(RecoveryView { stage: Stage::MarkReady, ..r }),
        PhaseView::Ready(recorded) => if r.intent.initial_authority is Expected
            && measured_evidence(r) != recorded {
            Err(ControlFault::EvidenceChanged { operation_id: r.intent.operation_id })
        } else {
            Ok(RecoveryView { stage: Stage::MarkReady, ..r })
        },
        PhaseView::Committed(_) => Ok(
            RecoveryView { stage: stage_after_commit(r.intent), ..r },
        ),
    }
}

/// What an answer leads to. An answer that does not belong to the stage changes nothing.
pub open spec fn recovery_step(r: RecoveryView, event: RecoveryEvent) -> Result<
    RecoveryView,
    ControlFault,
> {
    let intent = r.intent;
    let operation_id = intent.operation_id;
    match (r.stage, event) {
        (Stage::ReleaseSource, RecoveryEvent::Fence(generation)) => if generation == 0 {
            Ok(RecoveryView { stage: Stage::Abort, ..r })
        } else {
            Err(ControlFault::ExpectedFenced { operation_id, generation })
        },
        (Stage::Abort, RecoveryEvent::Accepted) => Ok(RecoveryView { stage: Stage::Done, ..r }),
        (Stage::CheckSource, RecoveryEvent::Fence(generation)) => if generation
            == intent.source_fence_generation || (intent.phase is Committed && source_retained(
            intent,
        ) && generation == 0) {
            Ok(RecoveryView { stage: Stage::ProbeDesired(0), ..r })
        } else {
            Err(
                ControlFault::SourceFence {
                    operation_id,
                    expected: intent.source_fence_generation,
                    observed: generation,
                },
            )
        },
        (Stage::ProbeDesired(i), RecoveryEvent::Fence(generation)) => if i
            < intent.desired.nodes().len() {
            let node = intent.desired.nodes()[i as int];
            if node != intent.expected.primary && generation != 0 {
                Err(ControlFault::DesiredFenced { operation_id, node, generation })
            } else {
                Ok(RecoveryView { stage: Stage::MeasureDesired(i), ..r })
            }
        } else {
            Ok(r)
        },
        (
            Stage::MeasureDesired(i),
            RecoveryEvent::Fingerprint { fingerprint_lo, fingerprint_hi, live_count },
        ) => if i < intent.desired.nodes().len() {
            let node = intent.desired.nodes()[i as int];
            let next = RecoveryView {
                evidence: r.evidence.push(
                    MoveMemberEvidence { node, fingerprint_lo, fingerprint_hi, live_count },
                ),
                ..r
            };
            if i + 1 < intent.desired.nodes().len() {
                Ok(RecoveryView { stage: Stage::ProbeDesired((i + 1) as usize), ..next })
            } else {
                after_attest(next)
            }
        } else {
            Ok(r)
        },
        (Stage::MarkReady, RecoveryEvent::Accepted) => Ok(
            RecoveryView { stage: Stage::Commit, ..r },
        ),
        (Stage::Commit, RecoveryEvent::Accepted) => Ok(
            RecoveryView { stage: stage_after_commit(intent), ..r },
        ),
        (Stage::ClearRetained, RecoveryEvent::Fence(generation)) => if generation == 0 {
            Ok(RecoveryView { stage: Stage::Finish, ..r })
        } else {
            Err(ControlFault::RetainedFenced { operation_id, generation })
        },
        (Stage::Finish, RecoveryEvent::Accepted) => Ok(RecoveryView { stage: Stage::Done, ..r }),
        _ => Ok(r),
    }
}

/// The member that a stage is about, if any.
pub open spec fn stage_member(r: RecoveryView) -> Option<NodeId> {
    match r.stage {
        Stage::ReleaseSource | Stage::CheckSource | Stage::ClearRetained => Some(
            r.intent.expected.primary,
        ),
        Stage::ProbeDesired(i) | Stage::MeasureDesired(i) => if i < r.intent.desired.nodes().len() {
            Some(r.intent.desired.nodes()[i as int])
        } else {
            None
        },
        _ => None,
    }
}

/// What a stage asks for, given the endpoint of its member.
///
/// A preparing move whose desired side served has its source fence put up again; a ready or
/// committed one must find it.
pub open spec fn recovery_action(r: RecoveryView, endpoint: Seq<char>) -> ActionView {
    let intent = r.intent;
    let operation_id = intent.operation_id;
    match r.stage {
        Stage::ReleaseSource => ActionView::Unfence {
            node: intent.expected.primary,
            endpoint,
            generation: intent.source_fence_generation,
        },
        Stage::Abort => ActionView::Propose {
            command: CommandView::Abort { operation_id },
            context: "startup: abort preparing move"@,
        },
        Stage::CheckSource => ActionView::Fence {
            node: intent.expected.primary,
            endpoint,
            generation: if intent.phase is Preparing {
                intent.source_fence_generation
            } else {
                0
            },
        },
        Stage::ProbeDesired(i) => if i < intent.desired.nodes().len() {
            ActionView::Fence { node: intent.desired.nodes()[i as int], endpoint, generation: 0 }
        } else {
            ActionView::Finished
        },
        Stage::MeasureDesired(i) => if i < intent.desired.nodes().len() {
            ActionView::Fingerprint { node: intent.desired.nodes()[i as int], endpoint }
        } else {
            ActionView::Finished
        },
        Stage::MarkReady => ActionView::Propose {
            command: CommandView::MarkReady { operation_id, evidence: ready_evidence(r) },
            context: "startup: persist recovered move evidence"@,
        },
        Stage::Commit => ActionView::Propose {
            command: CommandView::Commit { operation_id },
            context: "startup: conditionally commit recovered move"@,
        },
        Stage::ClearRetained => ActionView::Unfence {
            node: intent.expected.primary,
            endpoint,
            generation: intent.source_fence_generation,
        },
        Stage::Finish => ActionView::Propose {
            command: CommandView::Finish { operation_id },
            context: "startup: finish recovered move"@,
        },
        Stage::Done => ActionView::Finished,
    }
}

fn desired_node(intent: &MoveIntent, i: usize) -> (r: Option<NodeId>)
    ensures
        r == if i < intent@.desired.nodes().len() {
            Some(intent@.desired.nodes()[i as int])
        } else {
            None
        },
        intent@.desired.nodes().len() <= usize::MAX,
{
    let nodes = assignment_nodes(&intent.desired);
    if i < nodes.len() {
        Some(nodes[i])
    } else {
        None
    }
}

impl Recovery {
    /// Starts to resolve an intent, where it still fits its document.
    pub fn start(state: &ClusterState, intent: MoveIntent) -> (r: Result<Self, ShardError>)
        ensures
            match r {
                Ok(recovery) => {
                    &&& identity_fault(state@, intent@) is None
                    &&& recovery@ == recovery_start(intent@)
                },
                Err(e) => {
                    &&& identity_fault(state@, intent@) is Some
                    &&& e == ShardError::ControlPlane(identity_fault(state@, intent@)->0)
                },
            },
    {
        match validate_identity(state, &intent) {
            Ok(()) => {},
            Err(e) => {
                return Err(e);
            },
        }
        let preparing = match intent.phase {
            MoveIntentPhase::Preparing => true,
            _ => false,
        };
        let stage = if preparing && intent.initial_authority == MoveInitialAuthority::Expected {
            Stage::ReleaseSource
        } else {
            Stage::CheckSource
        };
        Ok(Recovery { intent, stage, evidence: Vec::new() })
    }

    /// The operation that is being resolved.
    pub fn operation_id(&self) -> (r: u64)
        ensures
            r == self@.intent.operation_id,
    {
        self.intent.operation_id
    }

    /// Where the resolution stands.
    pub fn stage(&self) -> (r: Stage)
        ensures
            r == self@.stage,
    {
        self.stage
    }

    fn evidence_so_far(&self) -> (r: MoveRecoveryEvidence)
        ensures
            r@ == measured_evidence(self@),
    {
        let members = self.evidence.clone();
        assert(members@ =~= self.evidence@);
        recovery_evidence(self.intent.live_generation, members)
    }

    /// What to do next. A member without a recorded identity ends the resolution.
    pub fn action(&self) -> (r: Result<RecoveryAction, ShardError>)
        ensures
            match stage_member(self@) {
                Some(node) => match first_with_key::<MoveMemberIdentity>(
                    self@.intent.members,
                    node.0,
                ) {
                    Some(member) => r matches Ok(a) && a@ == recovery_action(
                        self@,
                        member.endpoint,
                    ),
                    None => r == Err::<RecoveryAction, ShardError>(
                        ShardError::ControlPlane(
                            ControlFault::LacksIdentity {
                                operation_id: self@.intent.operation_id,
                                node,
                            },
                        ),
                    ),
                },
                None => r matches Ok(a) && a@ == recovery_action(self@, Seq::empty()),
            },
    {
        let operation_id: u64 = self.intent.operation_id;
        match self.stage {
            Stage::ReleaseSource => {
                let node = self.intent.expected.primary;
                match member_identity(&self.intent, node) {
                    Ok(member) => Ok(
                        RecoveryAction::Unfence {
                            node,
                            endpoint: member.endpoint.clone(),
                            generation: self.intent.source_fence_generation,
                        },
                    ),
                    Err(e) => Err(e),
                }
            },
            Stage::Abort => Ok(
                RecoveryAction::Propose {
                    command: MoveCommand::Abort { operation_id },
                    context: "startup: abort preparing move".to_owned(),
                },
            ),
            Stage::CheckSource => {
                let node = self.intent.expected.primary;
                let generation: u64 = match self.intent.phase {
                    MoveIntentPhase::Preparing => self.intent.source_fence_generation,
                    _ => 0,
                };
                match member_identity(&self.intent, node) {
                    Ok(member) => Ok(
                        RecoveryAction::Fence {
                            node,
                            endpoint: member.endpoint.clone(),
                            generation,
                        },
                    ),
                    Err(e) => Err(e),
                }
            },
            Stage::ProbeDesired(i) => match desired_node(&self.intent, i) {
                Some(node) => match member_identity(&self.intent, node) {
                    Ok(member) => Ok(
                        RecoveryAction::Fence {
                            node,
                            endpoint: member.endpoint.clone(),
                            generation: 0,
                        },
                    ),
                    Err(e) => Err(e),
                },
                None => Ok(RecoveryAction::Finished),
            },
            Stage::MeasureDesired(i) => match desired_node(&self.intent, i) {
                Some(node) => match member_identity(&self.intent, node) {
                    Ok(member) => Ok(
                        RecoveryAction::Fingerprint { node, endpoint: member.endpoint.clone() },
                    ),
                    Err(e) => Err(e),
                },
                None => Ok(RecoveryAction::Finished),
            },
            Stage::MarkReady => {
                let evidence = match &self.intent.phase {
                    MoveIntentPhase::Ready(recorded) => recorded.clone(),
                    _ => self.evidence_so_far(),
                };
                Ok(
                    RecoveryAction::Propose {
                        command: MoveCommand::MarkReady { operation_id, evidence },
                        context: "startup: persist recovered move evidence".to_owned(),
                    },
                )
            },
            Stage::Commit => Ok(
                RecoveryAction::Propose {
                    command: MoveCommand::Commit { operation_id },
                    context: "startup: conditionally commit recovered move".to_owned(),
                },
            ),
            Stage::ClearRetained => {
                let node = self.intent.expected.primary;
                match member_identity(&self.intent, node) {
                    Ok(member) => Ok(
                        RecoveryAction::Unfence {
                            node,
                            endpoint: member.endpoint.clone(),
                            generation: self.intent.source_fence_generation,
                        },
                    ),
                    Err(e) => Err(e),
                }
            },
            Stage::Finish => Ok(
                RecoveryAction::Propose {
                    command: MoveCommand::Finish { operation_id },
                    context: "startup: finish recovered move".to_owned(),
                },
            ),
            Stage::Done => Ok(RecoveryAction::Finished),
        }
    }

    fn commit_stage(&self) -> (r: Stage)
        ensures
            r == stage_after_commit(self@.intent),
    {
        if names_node(&self.intent.desired, self.intent.expected.primary) {
            Stage::ClearRetained
        } else {
            Stage::Finish
        }
    }

    fn attested(&mut self) -> (r: Result<(), ControlFault>)
        ensures
            match r {
                Ok(()) => after_attest(old(self)@) == Ok::<RecoveryView, ControlFault>(
                    final(self)@,
                ),
                Err(fault) => {
                    &&& after_attest(old(self)@) == Err::<RecoveryView, ControlFault>(fault)
                    &&& final(self)@ == old(self)@
                },
            },
    {
        match &self.intent.phase {
            MoveIntentPhase::Preparing => {
                self.stage = Stage::MarkReady;
            },
            MoveIntentPhase::Ready(recorded) => {
                if self.intent.initial_authority == MoveInitialAuthority::Expected
                    && self.evidence_so_far() != *recorded {
                    return Err(
                        ControlFault::EvidenceChanged { operation_id: self.intent.operation_id },
                    );
                }
                self.stage = Stage::MarkReady;
            },
            MoveIntentPhase::Committed(_) => {
                self.stage = self.commit_stage();
            },
        }
        Ok(())
    }

    /// Decides on the answer to the last action. After an error the resolution is over; the
    /// intent stays recorded.
    pub fn advance(&mut self, event: RecoveryEvent) -> (r: Result<(), ShardError>)
        ensures
            match r {
                Ok(()) => recovery_step(old(self)@, event) == Ok::<RecoveryView, ControlFault>(
                    final(self)@,
                ),
                Err(e) => {
                    &&& recovery_step(old(self)@, event) is Err
                    &&& e == ShardError::ControlPlane(recovery_step(old(self)@, event)->Err_0)
                },
            },
    {
        let operation_id: u64 = self.intent.operation_id;
        match event {
            RecoveryEvent::Fence(generation) => match self.stage {
                Stage::ReleaseSource => {
                    if generation != 0 {
                        return Err(
                            ShardError::ControlPlane(
                                ControlFault::ExpectedFenced { operation_id, generation },
                            ),
                        );
                    }
                    self.stage = Stage::Abort;
                },
                Stage::CheckSource => {
                    let committed = match self.intent.phase {
                        MoveIntentPhase::Committed(_) => true,
                        _ => false,
                    };
                    let expected: u64 = self.intent.source_fence_generation;
                    if generation == expected || (committed && generation == 0 && names_node(
                        &self.intent.desired,
                        self.intent.expected.primary,
                    )) {
                        self.stage = Stage::ProbeDesired(0);
                    } else {
                        return Err(
                            ShardError::ControlPlane(
                                ControlFault::SourceFence {
                                    operation_id,
                                    expected,
                                    observed: generation,
                                },
                            ),
                        );
                    }
                },
                Stage::ProbeDesired(i) => match desired_node(&self.intent, i) {
                    Some(node) => {
                        if node != self.intent.expected.primary && generation != 0 {
                            return Err(
                                ShardError::ControlPlane(
                                    ControlFault::DesiredFenced {
                                        operation_id,
                                        node,
                                        generation,
                                    },
                                ),
                            );
                        }
                        self.stage = Stage::MeasureDesired(i);
                    },
                    None => {},
                },
                Stage::ClearRetained => {
                    if generation != 0 {
                        return Err(
                            ShardError::ControlPlane(
                                ControlFault::RetainedFenced { operation_id, generation },
                            ),
                        );
                    }
                    self.stage = Stage::Finish;
                },
                _ => {},
            },
            RecoveryEvent::Fingerprint { fingerprint_lo, fingerprint_hi, live_count } => {
                match self.stage {
                    Stage::MeasureDesired(i) => match desired_node(&self.intent, i) {
                        Some(node) => {
                            self.evidence.push(
                                member_evidence(node, fingerprint_lo, fingerprint_hi, live_count),
                            );
                            if desired_node(&self.intent, i + 1).is_some() {
                                self.stage = Stage::ProbeDesired(i + 1);
                            } else {
                                match self.attested() {
                                    Ok(()) => {},
                                    Err(fault) => {
                                        return Err(ShardError::ControlPlane(fault));
                                    },
                                }
                            }
                        },
                        None => {},
                    },
                    _ => {},
                }
            },
            RecoveryEvent::Accepted => match self.stage {
                Stage::Abort => {
                    self.stage = Stage::Done;
                },
                Stage::MarkReady => {
                    self.stage = Stage::Commit;
                },
                Stage::Commit => {
                    self.stage = self.commit_stage();
                },
                Stage::Finish => {
                    self.stage = Stage::Done;
                },
                _ => {},
            },
        }
        Ok(())
    }
}

// ---- All intents ---------------------------------------------------------------------------

/// How often the whole set of intents is read before the start is given up.
pub const RECOVERY_PASSES: u32 = 4;

/// What to do after a read of the document.
pub enum SweepStep {
    /// Read the document again.
    ReadAgain,
    /// Resolve this intent, then say so, then read the document again.
    Resolve(Recovery),
    /// No intent is left; so many were resolved.
    Finished(usize),
}

/// The view of `RecoverySweep`.
#[verifier::ext_equal]
pub struct SweepView {
    /// Passes that were started.
    pub pass: u32,
    /// The operations of the current pass.
    pub queue: Seq<u64>,
    /// How many of them were taken up.
    pub at: nat,
    /// How many intents were resolved.
    pub recovered: usize,
}

/// The resolution of every intent before the coordinator serves.
pub struct RecoverySweep {
    pass: u32,
    queue: Vec<u64>,
    at: usize,
    recovered: usize,
}

impl View for RecoverySweep {
    type V = SweepView;

    closed spec fn view(&self) -> SweepView {
        SweepView {
            pass: self.pass,
            queue: self.queue@,
            at: self.at as nat,
            recovered: self.recovered,
        }
    }
}

/// The current pass is through.
pub open spec fn pass_done(s: SweepView) -> bool {
    s.at >= s.queue.len()
}

/// The operations of a set of intents, in order.
pub open spec fn operations(intents: Seq<IntentView>) -> Seq<u64> {
    intents.map_values(|i: IntentView| i.operation_id)
}

impl RecoverySweep {
    /// A sweep that has read nothing yet.
    pub fn new() -> (r: Self)
        ensures
            r@ == (SweepView { pass: 0, queue: Seq::empty(), at: 0, recovered: 0 }),
    {
        let r = RecoverySweep { pass: 0, queue: Vec::new(), at: 0, recovered: 0 };
        assert(r@.queue =~= Seq::<u64>::empty());
        r
    }

    /// Whether another read may follow. Intents that keep appearing end the start after the
    /// last pass.
    pub fn may_read(&self) -> (r: Result<(), ShardError>)
        ensures
            r == if pass_done(self@) && self@.pass >= RECOVERY_PASSES {
                Err::<(), ShardError>(ShardError::ControlPlane(ControlFault::IntentsChurning))
            } else {
                Ok::<(), ShardError>(())
            },
            r is Err <==> self@.at >= self@.queue.len() && self@.pass >= 4,
    {
        if self.at >= self.queue.len() && self.pass >= RECOVERY_PASSES {
            Err(ShardError::ControlPlane(ControlFault::IntentsChurning))
        } else {
            Ok(())
        }
    }

    /// Decides on a read of the document. At the start of a pass the set of intents must be
    /// sound, and its operations are queued; within a pass the next queued operation is
    /// resolved, where it is still recorded.
    pub fn observe(&mut self, state: &ClusterState) -> (r: Result<SweepStep, ShardError>)
        ensures
            final(self)@.recovered == old(self)@.recovered,
            ({
                let before = old(self)@;
                let after = final(self)@;
                let intents = state@.moves.intents;
                if pass_done(before) && before.pass >= RECOVERY_PASSES {
                    &&& r matches Err(e) && e == ShardError::ControlPlane(
                        ControlFault::IntentsChurning,
                    )
                    &&& after == before
                } else if pass_done(before) {
                    match r {
                        Ok(step) => {
                            &&& intent_set_fault(intents) is None
                            &&& after.pass == before.pass + 1
                            &&& after.queue == operations(intents)
                            &&& after.at == 0
                            &&& step == if intents.len() == 0 {
                                SweepStep::Finished(before.recovered)
                            } else {
                                SweepStep::ReadAgain
                            }
                        },
                        Err(e) => {
                            &&& intent_set_fault(intents) is Some
                            &&& e == ShardError::ControlPlane(intent_set_fault(intents)->0)
                            &&& after == before
                        },
                    }
                } else {
                    let found = operation_index(intents, before.queue[before.at as int]);
                    &&& after == (SweepView { at: before.at + 1, ..before })
                    &&& match r {
                        Ok(SweepStep::ReadAgain) => found is None,
                        Ok(SweepStep::Resolve(recovery)) => {
                            &&& found is Some
                            &&& identity_fault(state@, intents[found->0]) is None
                            &&& recovery@ == recovery_start(intents[found->0])
                        },
                        Ok(SweepStep::Finished(_)) => false,
                        Err(e) => {
                            &&& found is Some
                            &&& identity_fault(state@, intents[found->0]) is Some
                            &&& e == ShardError::ControlPlane(
                                identity_fault(state@, intents[found->0])->0,
                            )
                        },
                    }
                }
            }),
    {
        let ghost intents = state@.moves.intents;
        if self.at >= self.queue.len() {
            if self.pass >= RECOVERY_PASSES {
                return Err(ShardError::ControlPlane(ControlFault::IntentsChurning));
            }
            match validate_intent_set(state) {
                Ok(()) => {},
                Err(e) => {
                    return Err(e);
                },
            }
            let mut queue: Vec<u64> = Vec::new();
            let mut i: usize = 0;
            while i < state.moves.intents.len()
                invariant
                    i <= state.moves.intents.len(),
                    intents == state@.moves.intents,
                    queue@ == operations(intents).take(i as int),
                decreases state.moves.intents.len() - i,
            {
                queue.push(state.moves.intents[i].operation_id);
                i = i + 1;
                assert(queue@ =~= operations(intents).take(i as int));
            }
            assert(queue@ =~= operations(intents));
            let empty: bool = queue.len() == 0;
            self.pass = self.pass + 1;
            self.queue = queue;
            self.at = 0;
            if empty {
                return Ok(SweepStep::Finished(self.recovered));
            }
            return Ok(SweepStep::ReadAgain);
        }
        let operation: u64 = self.queue[self.at];
        self.at = self.at + 1;
        match find_operation(&state.moves.intents, operation) {
            Some(i) => {
                assert(intents[i as int] == state.moves.intents@[i as int]@);
                match Recovery::start(state, state.moves.intents[i].clone()) {
                    Ok(recovery) => Ok(SweepStep::Resolve(recovery)),
                    Err(e) => Err(e),
                }
            },
            None => Ok(SweepStep::ReadAgain),
        }
    }

    /// Notes that an intent was resolved.
    pub fn resolved(&mut self)
        ensures
            final(self)@ == (SweepView {
                recovered: if old(self)@.recovered == usize::MAX {
                    usize::MAX
                } else {
                    (old(self)@.recovered + 1) as usize
                },
                ..old(self)@
            }),
    {
        self.recovered = self.recovered.saturating_add(1);
    }
}

} // verus!
