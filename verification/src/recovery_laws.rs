//! What the resolution of a durable move guarantees: what was proved before each proposal, and
//! where the document ends up.

use vstd::prelude::*;

use crate::control_laws::{
    intent_sound, lemma_intent_removed, lemma_move_well_formed, lemma_only_commit_assigns,
    lemma_operation_at, recorded_evidence_fits, well_formed,
};
use crate::document::{
    ClusterStateView, CommandView, EvidenceView, IntentView, MemberView, MoveCommandOutcome,
    MoveInitialAuthority, MoveIntent, MoveMemberEvidence, MoveMemberIdentity, NodeId, PhaseView,
    lemma_node_set, node_set,
};
use crate::document_laws::{
    is_generation, is_member, is_placed, is_registered, lemma_members, lemma_nodes, lemma_reads,
    lemma_serves_at, members_apart, members_are_the_named, names, one_more, serves_at,
    tables_in_order,
};
use crate::error::ControlFault;
use crate::keyed::{Keyed, canonical, has_key, lemma_sorted_distinct, sorted_by_key};
use crate::move_intent::{
    evidence_fits, identities_hold, identity_holds, lemma_named_nodes, move_outcome, move_state,
    named_nodes, operation_index, predicate_holds,
};
use crate::move_laws::endpoints_meet;
use crate::recovery::{
    ActionView, RecoveryEvent, RecoveryView, Stage, SweepView, discards, identity_fault,
    intent_set_fault, measured_evidence, member_fault, members_canonical, operations, overlap,
    pass_done, ready_evidence, recovery_action, recovery_start, recovery_step, source_retained,
    stage_member,
};
use crate::text::normalized;

verus! {

/// The measured members are the first desired members, in order.
pub open spec fn measured_in_order(r: RecoveryView) -> bool {
    &&& r.evidence.len() <= r.intent.desired.nodes().len()
    &&& forall|j: int|
        0 <= j < r.evidence.len() ==> (#[trigger] r.evidence[j]).node
            == r.intent.desired.nodes()[j]
}

/// Every desired member is measured.
pub open spec fn all_measured(r: RecoveryView) -> bool {
    measured_in_order(r) && r.evidence.len() == r.intent.desired.nodes().len()
}

/// What holds at each stage. An intent is discarded only where it was preparing while the
/// expected side served; it is committed only with every desired member measured and, where
/// the expected side served, with exactly the recorded content; and it is finished only with
/// every desired member attested.
pub open spec fn recovery_sound(r: RecoveryView) -> bool {
    match r.stage {
        Stage::ReleaseSource | Stage::Abort => discards(r.intent),
        Stage::CheckSource => !discards(r.intent) && r.evidence.len() == 0,
        Stage::ProbeDesired(i) | Stage::MeasureDesired(i) => {
            &&& !discards(r.intent)
            &&& i < r.intent.desired.nodes().len()
            &&& r.evidence.len() == i
            &&& measured_in_order(r)
        },
        Stage::MarkReady | Stage::Commit => {
            &&& !discards(r.intent)
            &&& all_measured(r)
            &&& !(r.intent.phase is Committed)
            &&& r.intent.phase is Ready && r.intent.initial_authority is Expected
                ==> measured_evidence(r) == r.intent.phase->Ready_0
        },
        Stage::ClearRetained => {
            &&& !discards(r.intent)
            &&& all_measured(r)
            &&& source_retained(r.intent)
        },
        Stage::Finish => !discards(r.intent) && all_measured(r),
        Stage::Done => discards(r.intent) || all_measured(r),
    }
}

/// Every resolution is sound from its start on, whatever answers come, and it never leaves its
/// intent.
pub proof fn lemma_recovery_sound(intent: IntentView, r: RecoveryView, event: RecoveryEvent)
    requires
        recovery_sound(r),
        r.intent.desired.nodes().len() <= usize::MAX,
    ensures
        recovery_sound(recovery_start(intent)),
        recovery_step(r, event) matches Ok(next) ==> recovery_sound(next) && next.intent
            == r.intent,
{
}

/// A proposal to discard an intent is made only after the source answered that it has no
/// fence.
pub proof fn lemma_abort_after_release(r: RecoveryView, event: RecoveryEvent)
    requires
        r.stage != Stage::Abort,
        recovery_step(r, event) is Ok,
        recovery_step(r, event)->Ok_0.stage == Stage::Abort,
    ensures
        r.stage == Stage::ReleaseSource,
        event == RecoveryEvent::Fence(0),
{
}

/// Nothing is measured before the source answered with the recorded fence; only a committed
/// move may find a source that stays in the group already free of it.
pub proof fn lemma_attest_after_fence(r: RecoveryView, event: RecoveryEvent)
    requires
        r.stage == Stage::CheckSource,
        recovery_step(r, event) is Ok,
        recovery_step(r, event)->Ok_0.stage != Stage::CheckSource,
    ensures
        event is Fence,
        event->Fence_0 == r.intent.source_fence_generation || (r.intent.phase is Committed
            && source_retained(r.intent) && event->Fence_0 == 0),
{
}

/// A desired member is measured only where it has no fence, but for a source that stays.
pub proof fn lemma_measure_unfenced(r: RecoveryView, event: RecoveryEvent, i: usize)
    requires
        recovery_sound(r),
        r.stage == Stage::ProbeDesired(i),
        recovery_step(r, event) is Ok,
        recovery_step(r, event)->Ok_0.stage == Stage::MeasureDesired(i),
    ensures
        event is Fence,
        event->Fence_0 == 0 || r.intent.desired.nodes()[i as int] == r.intent.expected.primary,
{
}

/// The evidence that a resolution proposes is of the intent's generation and of exactly its
/// desired members.
pub proof fn lemma_ready_evidence_fits(r: RecoveryView)
    requires
        recovery_sound(r),
        r.stage == Stage::MarkReady,
        r.intent.desired.nodes().no_duplicates(),
        recorded_evidence_fits(r.intent),
    ensures
        evidence_fits(r.intent, ready_evidence(r)),
{
    if r.intent.phase is Preparing {
        let evidence = r.evidence;
        let nodes = r.intent.desired.nodes();
        assert forall|i: int, j: int| 0 <= i < j < evidence.len() implies
            MoveMemberEvidence::key_of(#[trigger] evidence[i]) != MoveMemberEvidence::key_of(
            #[trigger] evidence[j],
        ) by {
            assert(nodes[i] != nodes[j]);
        }
        lemma_sorted_distinct::<MoveMemberEvidence>(evidence);
        let sorted = sorted_by_key::<MoveMemberEvidence>(evidence);
        assert forall|n: NodeId|
            has_key::<MoveMemberEvidence>(sorted, n.0) <==> #[trigger] nodes.contains(n) by {
            if has_key::<MoveMemberEvidence>(sorted, n.0) {
                let i = choose|i: int|
                    0 <= i < sorted.len() && MoveMemberEvidence::key_of(#[trigger] sorted[i])
                        == n.0;
                assert(sorted.contains(sorted[i]));
                let m = choose|m: int| 0 <= m < evidence.len() && evidence[m] == sorted[i];
                assert(nodes[m] == n);
            }
            if nodes.contains(n) {
                let m = choose|m: int| 0 <= m < nodes.len() && nodes[m] == n;
                assert(evidence[m].node == n);
                assert(evidence.contains(evidence[m]));
                assert(sorted.contains(evidence[m]));
                let i = choose|i: int| 0 <= i < sorted.len() && sorted[i] == evidence[m];
                assert(MoveMemberEvidence::key_of(sorted[i]) == n.0);
            }
        }
    }
}

/// The identities of an intent do not depend on the intents, assignments or format.
proof fn lemma_identities_of_nodes(a: ClusterStateView, b: ClusterStateView, intent: IntentView)
    requires
        a.nodes == b.nodes,
    ensures
        identities_hold(a, intent) == identities_hold(b, intent),
{
    assert forall|m: MemberView| identity_holds(a, m) == identity_holds(b, m) by {}
}

proof fn lemma_members_registered(
    state: ClusterStateView,
    operation_id: u64,
    members: Seq<MemberView>,
    k: nat,
)
    requires
        member_fault(state, operation_id, members, k) is None,
    ensures
        forall|i: int|
            k <= i < members.len() ==> state.endpoint((#[trigger] members[i]).node) is Some
                && normalized(state.endpoint(members[i].node)->0) == members[i].endpoint,
    decreases members.len() - k,
{
    if k < members.len() {
        lemma_members_registered(state, operation_id, members, k + 1);
    }
}

/// An active intent that passes validation has what its next command asks for: before its
/// commit the whole predicate that it was planned against, and after it the desired assignment
/// and its identities.
pub proof fn lemma_validated(state: ClusterStateView, i: int)
    requires
        well_formed(state),
        0 <= i < state.moves.intents.len(),
        identity_fault(state, state.moves.intents[i]) is None,
    ensures
        ({
            let intent = state.moves.intents[i];
            &&& identities_hold(state, intent)
            &&& if intent.phase is Committed {
                state.assignment(intent.position) == Some(intent.desired)
            } else {
                predicate_holds(state, intent)
            }
        }),
{
    let intent = state.moves.intents[i];
    assert(intent_sound(intent));
    lemma_members_registered(state, intent.operation_id, intent.members, 0);
    assert forall|m: int| 0 <= m < intent.members.len() implies identity_holds(
        state,
        #[trigger] intent.members[m],
    ) by {
        assert(intent.members[m].endpoint.len() > 0);
    }
}

/// A resolution that has reached its commit takes the document to the desired assignment: the
/// evidence is recorded, now or before, the desired assignment is installed, and the intent is
/// gone.
pub proof fn lemma_recovery_commits(state: ClusterStateView, r: RecoveryView, i: int)
    requires
        well_formed(state),
        recovery_sound(r),
        r.stage == Stage::MarkReady,
        0 <= i < state.moves.intents.len(),
        state.moves.intents[i] == r.intent,
        identity_fault(state, r.intent) is None,
    ensures
        ({
            let operation_id = r.intent.operation_id;
            let ready = CommandView::MarkReady { operation_id, evidence: ready_evidence(r) };
            let s1 = move_state(state, ready);
            let s2 = move_state(s1, CommandView::Commit { operation_id });
            let s3 = move_state(s2, CommandView::Finish { operation_id });
            &&& move_outcome(state, ready) == if r.intent.phase is Preparing {
                MoveCommandOutcome::Applied
            } else {
                MoveCommandOutcome::AlreadyApplied
            }
            &&& move_outcome(s1, CommandView::Commit { operation_id })
                == MoveCommandOutcome::Applied
            &&& move_outcome(s2, CommandView::Finish { operation_id })
                == MoveCommandOutcome::Applied
            &&& s3.assignment(r.intent.position) == Some(r.intent.desired)
            &&& operation_index(s3.moves.intents, operation_id) is None
        }),
{
    let operation_id = r.intent.operation_id;
    let ready = CommandView::MarkReady { operation_id, evidence: ready_evidence(r) };
    let commit = CommandView::Commit { operation_id };
    let finish = CommandView::Finish { operation_id };
    let s1 = move_state(state, ready);
    lemma_validated(state, i);
    lemma_operation_at(state.moves.intents, i);
    assert(intent_sound(state.moves.intents[i]));
    assert(recorded_evidence_fits(state.moves.intents[i]));
    lemma_ready_evidence_fits(r);
    lemma_move_well_formed(state, ready);
    let intent1 = s1.moves.intents[i];
    assert(intent1.operation_id == operation_id);
    assert(intent1.same_transition(r.intent));
    assert(intent1.phase == PhaseView::Ready(ready_evidence(r)));
    lemma_operation_at(s1.moves.intents, i);
    lemma_identities_of_nodes(state, s1, r.intent);
    lemma_identities_of_nodes(state, s1, intent1);
    assert(identities_hold(s1, intent1) == identities_hold(s1, r.intent)) by {
        lemma_identities_ignore_phase(s1, intent1, r.intent);
    }
    assert(s1.assignment(intent1.position) == state.assignment(r.intent.position));
    assert(predicate_holds(s1, intent1));
    let s2 = move_state(s1, commit);
    lemma_only_commit_assigns(s1, commit);
    lemma_move_well_formed(s1, commit);
    let intent2 = s2.moves.intents[i];
    lemma_operation_at(s2.moves.intents, i);
    lemma_identities_of_nodes(s1, s2, intent2);
    lemma_identities_ignore_phase(s1, intent2, intent1);
    let s3 = move_state(s2, finish);
    lemma_intent_removed(s2.moves.intents, i);
    assert(s3.assignments == s2.assignments);
}

proof fn lemma_identities_ignore_phase(state: ClusterStateView, a: IntentView, b: IntentView)
    requires
        a.same_transition(b),
    ensures
        identities_hold(state, a) == identities_hold(state, b),
{
    assert(a.in_phase(PhaseView::Preparing) == b.in_phase(PhaseView::Preparing));
    assert(a.members == a.in_phase(PhaseView::Preparing).members);
    assert(b.members == b.in_phase(PhaseView::Preparing).members);
    assert(a.expected == a.in_phase(PhaseView::Preparing).expected);
    assert(b.expected == b.in_phase(PhaseView::Preparing).expected);
    assert(a.desired == a.in_phase(PhaseView::Preparing).desired);
    assert(b.desired == b.in_phase(PhaseView::Preparing).desired);
}

/// A preparing move whose expected side served is discarded, and the assignments stay.
pub proof fn lemma_recovery_discards(state: ClusterStateView, i: int)
    requires
        well_formed(state),
        0 <= i < state.moves.intents.len(),
        discards(state.moves.intents[i]),
        identity_fault(state, state.moves.intents[i]) is None,
    ensures
        ({
            let operation_id = state.moves.intents[i].operation_id;
            let abort = CommandView::Abort { operation_id };
            let next = move_state(state, abort);
            &&& move_outcome(state, abort) == MoveCommandOutcome::Applied
            &&& operation_index(next.moves.intents, operation_id) is None
            &&& next.assignments == state.assignments
        }),
{
    lemma_validated(state, i);
    lemma_operation_at(state.moves.intents, i);
    lemma_intent_removed(state.moves.intents, i);
}

/// A committed move is finished, and the desired assignment stays.
pub proof fn lemma_recovery_finishes(state: ClusterStateView, i: int)
    requires
        well_formed(state),
        0 <= i < state.moves.intents.len(),
        state.moves.intents[i].phase is Committed,
        identity_fault(state, state.moves.intents[i]) is None,
    ensures
        ({
            let operation_id = state.moves.intents[i].operation_id;
            let finish = CommandView::Finish { operation_id };
            let next = move_state(state, finish);
            &&& move_outcome(state, finish) == MoveCommandOutcome::Applied
            &&& operation_index(next.moves.intents, operation_id) is None
            &&& next.assignments == state.assignments
        }),
{
    lemma_validated(state, i);
    lemma_operation_at(state.moves.intents, i);
    lemma_intent_removed(state.moves.intents, i);
}

// ---- What is resolved ----------------------------------------------------------------------

/// The nodes of an intent's members, in order, are those that its assignments name.
proof fn lemma_members_canonical(intent: IntentView)
    ensures
        members_canonical(intent) <==> {
            &&& members_are_the_named(intent)
            &&& members_apart(intent, intent.expected)
            &&& members_apart(intent, intent.desired)
        },
{
    let members = intent.members;
    let all = intent.expected.nodes() + intent.desired.nodes();
    let set = node_set(all);
    lemma_node_set(all);
    lemma_named_nodes::<MoveMemberIdentity>(members, set);
    lemma_nodes(intent.expected);
    lemma_nodes(intent.desired);
    lemma_members(intent);
    assert forall|n: NodeId| #[trigger] set.contains(n) <==> names(intent.expected, n) || names(
        intent.desired,
        n,
    ) by {
        let e = intent.expected.nodes();
        let d = intent.desired.nodes();
        if all.contains(n) {
            let i = choose|i: int| 0 <= i < all.len() && all[i] == n;
            if i < e.len() {
                assert(e[i] == n);
                assert(e.contains(n));
            } else {
                assert(d[i - e.len()] == n);
                assert(d.contains(n));
            }
        }
        if e.contains(n) {
            let i = choose|i: int| 0 <= i < e.len() && e[i] == n;
            assert(all[i] == n);
        }
        if d.contains(n) {
            let i = choose|i: int| 0 <= i < d.len() && d[i] == n;
            assert(all[e.len() + i] == n);
        }
        assert(e.contains(n) <==> names(intent.expected, n));
        assert(d.contains(n) <==> names(intent.desired, n));
    }
    assert forall|n: NodeId| has_key::<MoveMemberIdentity>(members, n.0) <==> #[trigger] is_member(
        intent,
        n,
    ) by {
        if has_key::<MoveMemberIdentity>(members, n.0) {
            let i = choose|i: int|
                0 <= i < members.len() && MoveMemberIdentity::key_of(#[trigger] members[i]) == n.0;
            assert(members[i].node == n);
        }
        if is_member(intent, n) {
            let i = choose|i: int| 0 <= i < members.len() && (#[trigger] members[i]).node == n;
            assert(MoveMemberIdentity::key_of(members[i]) == n.0);
        }
    }
    if members_are_the_named(intent) {
        assert forall|i: int, j: int| 0 <= i < j < members.len() implies
            MoveMemberIdentity::key_of(#[trigger] members[i]) < MoveMemberIdentity::key_of(
            #[trigger] members[j],
        ) by {}
        assert forall|n: NodeId|
            has_key::<MoveMemberIdentity>(members, n.0) <==> #[trigger] set.contains(n) by {
            assert(has_key::<MoveMemberIdentity>(members, n.0) <==> is_member(intent, n));
            if is_member(intent, n) {
                let i = choose|i: int| 0 <= i < members.len() && (#[trigger] members[i]).node == n;
                assert(names(intent.expected, members[i].node) || names(
                    intent.desired,
                    members[i].node,
                ));
            }
        }
    }
    if named_nodes::<MoveMemberIdentity>(members) == set {
        assert forall|i: int, j: int| 0 <= i < j < members.len() implies (
        #[trigger] members[i]).node.0 < (#[trigger] members[j]).node.0 by {
            assert(MoveMemberIdentity::key_of(members[i]) < MoveMemberIdentity::key_of(
                members[j],
            ));
        }
        assert forall|i: int| 0 <= i < members.len() implies names(
            intent.expected,
            (#[trigger] members[i]).node,
        ) || names(intent.desired, members[i].node) by {
            let n = members[i].node;
            assert(is_member(intent, n));
            assert(has_key::<MoveMemberIdentity>(members, n.0));
            assert(set.contains(n));
        }
        assert forall|n: NodeId|
            names(intent.expected, n) || names(
                intent.desired,
                n,
            ) implies #[trigger] is_member(intent, n) by {
            assert(set.contains(n));
        }
    }
}

/// An intent is of the current version, of a position that exists, and of the placement in force.
pub open spec fn of_this_cluster(state: ClusterStateView, intent: IntentView) -> bool {
    &&& intent.intent_version == 1
    &&& intent.position < state.num_shards
    &&& intent.placement_generation == state.placement_generation
}

/// An intent has recorded the nodes of its assignments, and no two of one assignment at one
/// endpoint.
pub open spec fn members_recorded(intent: IntentView) -> bool {
    &&& members_are_the_named(intent)
    &&& members_apart(intent, intent.expected)
    &&& members_apart(intent, intent.desired)
}

/// Every member is registered where the intent has it.
pub open spec fn members_in_place(state: ClusterStateView, intent: IntentView) -> bool {
    forall|i: int|
        0 <= i < intent.members.len() ==> serves_at(
            state,
            (#[trigger] intent.members[i]).node,
            intent.members[i].endpoint,
        )
}

/// The assignment that the intent's phase asks for is in force, at the generation that it then
/// has: the expected one, or, once committed, the desired one after one more write.
pub open spec fn assignment_in_force(state: ClusterStateView, intent: IntentView) -> bool {
    if intent.phase is Committed {
        &&& is_placed(state, intent.position, intent.desired)
        &&& is_generation(
            state,
            intent.position,
            one_more(intent.expected_assignment_generation),
        )
    } else {
        &&& is_placed(state, intent.position, intent.expected)
        &&& is_generation(state, intent.position, intent.expected_assignment_generation)
    }
}

/// The first member that is not where the intent has it.
pub open spec fn first_misplaced(state: ClusterStateView, intent: IntentView, k: int) -> bool {
    &&& 0 <= k < intent.members.len()
    &&& !serves_at(state, intent.members[k].node, intent.members[k].endpoint)
    &&& forall|i: int|
        0 <= i < k ==> serves_at(
            state,
            (#[trigger] intent.members[i]).node,
            intent.members[i].endpoint,
        )
}

proof fn lemma_member_fault(state: ClusterStateView, intent: IntentView, k: nat)
    requires
        tables_in_order(state),
        k <= intent.members.len(),
        forall|i: int|
            0 <= i < k ==> serves_at(
                state,
                (#[trigger] intent.members[i]).node,
                intent.members[i].endpoint,
            ),
    ensures
        match member_fault(state, intent.operation_id, intent.members, k) {
            None => members_in_place(state, intent),
            Some(fault) => exists|m: int| #[trigger]
                first_misplaced(state, intent, m) && fault == if state.endpoint(
                    intent.members[m].node,
                ) is None {
                    ControlFault::EndpointGone {
                        operation_id: intent.operation_id,
                        node: intent.members[m].node,
                    }
                } else {
                    ControlFault::EndpointChanged {
                        operation_id: intent.operation_id,
                        node: intent.members[m].node,
                    }
                },
        },
    decreases intent.members.len() - k,
{
    if k < intent.members.len() {
        let member = intent.members[k as int];
        lemma_serves_at(state, member.node, member.endpoint);
        if serves_at(state, member.node, member.endpoint) {
            lemma_member_fault(state, intent, k + 1);
        } else {
            assert(first_misplaced(state, intent, k as int));
        }
    }
}

/// An intent is resolved exactly where it still fits its document: it is of this cluster, it has
/// recorded its members, they are in place, and the assignment that its phase asks for is in
/// force. Otherwise the first of these that fails is named, with the operation, and for a
/// misplaced member with its node.
#[verifier::spinoff_prover]
pub proof fn lemma_identity_decides(state: ClusterStateView, intent: IntentView)
    requires
        tables_in_order(state),
    ensures
        ({
            let fault = identity_fault(state, intent);
            let operation_id = intent.operation_id;
            &&& fault is None <==> {
                &&& of_this_cluster(state, intent)
                &&& members_recorded(intent)
                &&& members_in_place(state, intent)
                &&& assignment_in_force(state, intent)
            }
            &&& fault == Some(ControlFault::Incompatible { operation_id }) <==> !of_this_cluster(
                state,
                intent,
            )
            &&& fault == Some(ControlFault::NonCanonicalMembers { operation_id })
                <==> of_this_cluster(state, intent) && !members_recorded(intent)
            &&& of_this_cluster(state, intent) && members_recorded(intent) && !members_in_place(
                state,
                intent,
            ) ==> exists|m: int| #[trigger]
                first_misplaced(state, intent, m) && fault == Some(
                    if forall|e: Seq<char>| !#[trigger] is_registered(
                        state,
                        intent.members[m].node,
                        e,
                    ) {
                        ControlFault::EndpointGone { operation_id, node: intent.members[m].node }
                    } else {
                        ControlFault::EndpointChanged { operation_id, node: intent.members[m].node }
                    },
                )
            &&& of_this_cluster(state, intent) && members_recorded(intent) && members_in_place(
                state,
                intent,
            ) && !assignment_in_force(state, intent) ==> fault == Some(
                if intent.phase is Committed {
                    ControlFault::CommittedPredicate { operation_id }
                } else {
                    ControlFault::ExpectedPredicate { operation_id }
                },
            )
        }),
{
    let operation_id = intent.operation_id;
    lemma_members_canonical(intent);
    lemma_member_fault(state, intent, 0);
    lemma_reads(state, intent.position, NodeId(0));
    let g = intent.expected_assignment_generation;
    assert(is_placed(state, intent.position, intent.expected) <==> state.assignment(
        intent.position,
    ) == Some(intent.expected));
    assert(is_placed(state, intent.position, intent.desired) <==> state.assignment(intent.position)
        == Some(intent.desired));
    assert(is_generation(state, intent.position, g) <==> state.moves.generation(intent.position)
        == g);
    assert(is_generation(state, intent.position, one_more(g)) <==> state.moves.generation(
        intent.position,
    ) == one_more(g));
    let found = member_fault(state, operation_id, intent.members, 0);
    if found is Some {
        let m = choose|m: int| #[trigger]
            first_misplaced(state, intent, m) && found->0 == if state.endpoint(
                intent.members[m].node,
            ) is None {
                ControlFault::EndpointGone { operation_id, node: intent.members[m].node }
            } else {
                ControlFault::EndpointChanged { operation_id, node: intent.members[m].node }
            };
        let node = intent.members[m].node;
        lemma_reads(state, 0, node);
        assert((forall|e: Seq<char>| !#[trigger] is_registered(state, node, e)) <==> state.endpoint(
            node,
        ) is None) by {
            if state.endpoint(node) is Some {
                assert(is_registered(state, node, state.endpoint(node)->0));
            }
        }
        assert(first_misplaced(state, intent, m));
        assert(!members_in_place(state, intent));
    }
}

/// A set of intents is resolved where their positions strictly increase, their operations differ
/// and their endpoints do not meet; the first of these two that fails is named.
pub proof fn lemma_intent_set_decides(intents: Seq<IntentView>)
    ensures
        ({
            let in_order = forall|i: int, j: int|
                0 <= i < j < intents.len() ==> (#[trigger] intents[i]).position < (
                #[trigger] intents[j]).position;
            let apart = forall|i: int, j: int|
                0 <= i < j < intents.len() ==> (#[trigger] intents[i]).operation_id != (
                #[trigger] intents[j]).operation_id && !endpoints_meet(intents[i], intents[j]);
            &&& intent_set_fault(intents) is None <==> in_order && apart
            &&& intent_set_fault(intents) == Some(ControlFault::NonCanonicalPositions)
                <==> !in_order
            &&& intent_set_fault(intents) == Some(ControlFault::OverlappingIntents) <==> in_order
                && !apart
        }),
{
    if canonical::<MoveIntent>(intents) {
        assert forall|i: int, j: int| 0 <= i < j < intents.len() implies (
        #[trigger] intents[i]).position < (#[trigger] intents[j]).position by {
            assert(MoveIntent::key_of(intents[i]) < MoveIntent::key_of(intents[j]));
        }
    }
    if forall|i: int, j: int|
        0 <= i < j < intents.len() ==> (#[trigger] intents[i]).position < (
        #[trigger] intents[j]).position {
        assert forall|i: int, j: int| 0 <= i < j < intents.len() implies MoveIntent::key_of(
            #[trigger] intents[i],
        ) < MoveIntent::key_of(#[trigger] intents[j]) by {}
    }
    assert forall|i: int, j: int| 0 <= i < j < intents.len() implies (overlap(
        #[trigger] intents[i],
        #[trigger] intents[j],
    ) <==> !(intents[i].operation_id != intents[j].operation_id && !endpoints_meet(
        intents[i],
        intents[j],
    ))) by {}
}

/// The operations of a pass are those of the recorded intents, one for each, in their order.
pub proof fn lemma_pass_takes_all(intents: Seq<IntentView>)
    ensures
        operations(intents).len() == intents.len(),
        forall|i: int|
            0 <= i < intents.len() ==> operations(intents)[i] == (
            #[trigger] intents[i]).operation_id,
{
}

// ---- How it is resolved --------------------------------------------------------------------

/// The resolution goes on in a stage, with nothing else changed.
pub open spec fn goes_on(
    before: RecoveryView,
    after: Result<RecoveryView, ControlFault>,
    stage: Stage,
) -> bool {
    &&& after matches Ok(next) && next.stage == stage && next.intent == before.intent
        && next.evidence == before.evidence
}

/// A preparing move whose expected side served starts by releasing its source, and every other
/// one by checking the source's fence; nothing is measured yet.
pub proof fn lemma_resolution_starts(intent: IntentView)
    ensures
        recovery_start(intent).intent == intent,
        recovery_start(intent).evidence.len() == 0,
        recovery_start(intent).stage == if intent.phase == PhaseView::Preparing
            && intent.initial_authority == MoveInitialAuthority::Expected {
            Stage::ReleaseSource
        } else {
            Stage::CheckSource
        },
{
}

/// Discarding: the source must answer that it has no fence; any other fence ends the start, and
/// is named. The abort is then proposed, and once it is in force the intent is resolved.
pub proof fn lemma_discard_steps(r: RecoveryView, generation: u64)
    ensures
        r.stage == Stage::ReleaseSource ==> if generation == 0 {
            goes_on(r, recovery_step(r, RecoveryEvent::Fence(generation)), Stage::Abort)
        } else {
            recovery_step(r, RecoveryEvent::Fence(generation)) == Err::<
                RecoveryView,
                ControlFault,
            >(ControlFault::ExpectedFenced { operation_id: r.intent.operation_id, generation })
        },
        r.stage == Stage::Abort ==> goes_on(
            r,
            recovery_step(r, RecoveryEvent::Accepted),
            Stage::Done,
        ),
{
}

/// Checking the source: it must have exactly the recorded fence; only where the move is committed
/// and the source stays a member may it have none. Any other fence ends the start, and is named.
pub proof fn lemma_source_step(r: RecoveryView, generation: u64)
    requires
        r.stage == Stage::CheckSource,
    ensures
        ({
            let after = recovery_step(r, RecoveryEvent::Fence(generation));
            if generation == r.intent.source_fence_generation || (generation == 0
                && r.intent.phase is Committed && names(
                r.intent.desired,
                r.intent.expected.primary,
            )) {
                goes_on(r, after, Stage::ProbeDesired(0))
            } else {
                after == Err::<RecoveryView, ControlFault>(
                    ControlFault::SourceFence {
                        operation_id: r.intent.operation_id,
                        expected: r.intent.source_fence_generation,
                        observed: generation,
                    },
                )
            }
        }),
{
    lemma_nodes(r.intent.desired);
}

/// Attesting the desired members, the primary first: each must be free of a fence, but for the
/// source where it stays a member; and what is measured is recorded under the member's node, as
/// it was answered, before the next member is probed.
pub proof fn lemma_member_steps(
    r: RecoveryView,
    i: usize,
    generation: u64,
    fingerprint_lo: u64,
    fingerprint_hi: u64,
    live_count: u64,
)
    requires
        i <= r.intent.desired.replicas.len(),
        r.intent.desired.replicas.len() < usize::MAX,
    ensures
        ({
            let node = if i == 0 {
                r.intent.desired.primary
            } else {
                r.intent.desired.replicas[i - 1]
            };
            let measured = MoveMemberEvidence { node, fingerprint_lo, fingerprint_hi, live_count };
            let probed = recovery_step(r, RecoveryEvent::Fence(generation));
            let attested = recovery_step(
                r,
                RecoveryEvent::Fingerprint { fingerprint_lo, fingerprint_hi, live_count },
            );
            &&& r.stage == Stage::ProbeDesired(i) ==> if generation == 0 || node
                == r.intent.expected.primary {
                goes_on(r, probed, Stage::MeasureDesired(i))
            } else {
                probed == Err::<RecoveryView, ControlFault>(
                    ControlFault::DesiredFenced {
                        operation_id: r.intent.operation_id,
                        node,
                        generation,
                    },
                )
            }
            &&& r.stage == Stage::MeasureDesired(i) && i < r.intent.desired.replicas.len()
                ==> attested == Ok::<RecoveryView, ControlFault>(
                RecoveryView {
                    stage: Stage::ProbeDesired((i + 1) as usize),
                    intent: r.intent,
                    evidence: r.evidence.push(measured),
                },
            )
            &&& r.stage == Stage::MeasureDesired(i) && i == r.intent.desired.replicas.len()
                ==> attested_last(r, r.evidence.push(measured), attested)
        }),
{
    let desired = r.intent.desired;
    lemma_nodes(desired);
    if i > 0 {
        assert(desired.replicas[i - 1] == desired.nodes()[i as int]);
    }
    lemma_nodes_contain(r.intent);
}

proof fn lemma_nodes_contain(intent: IntentView)
    ensures
        source_retained(intent) <==> names(intent.desired, intent.expected.primary),
{
    lemma_nodes(intent.desired);
}

/// What follows once the last member is measured. A preparing move becomes ready; a ready one
/// whose expected side served must have found what it recorded, at the recorded generation, and
/// one whose desired side served may have moved on; a committed one frees a source that stays,
/// and is finished otherwise.
pub open spec fn attested_last(
    r: RecoveryView,
    evidence: Seq<MoveMemberEvidence>,
    after: Result<RecoveryView, ControlFault>,
) -> bool {
    let found = EvidenceView {
        live_generation: r.intent.live_generation,
        members: sorted_by_key::<MoveMemberEvidence>(evidence),
    };
    let stays = names(r.intent.desired, r.intent.expected.primary);
    let refused = match r.intent.phase {
        PhaseView::Ready(recorded) => r.intent.initial_authority == MoveInitialAuthority::Expected
            && recorded != found,
        _ => false,
    };
    if refused {
        after == Err::<RecoveryView, ControlFault>(
            ControlFault::EvidenceChanged { operation_id: r.intent.operation_id },
        )
    } else {
        &&& after matches Ok(next) && next.intent == r.intent && next.evidence == evidence
            && next.stage == if !(r.intent.phase is Committed) {
            Stage::MarkReady
        } else if stays {
            Stage::ClearRetained
        } else {
            Stage::Finish
        }
    }
}

/// The evidence is made ready, then the move is committed, then a source that stays is freed, and
/// then the intent is dropped; a source that keeps a fence ends the start, and is named.
pub proof fn lemma_commit_steps(r: RecoveryView, generation: u64)
    ensures
        r.stage == Stage::MarkReady ==> goes_on(
            r,
            recovery_step(r, RecoveryEvent::Accepted),
            Stage::Commit,
        ),
        r.stage == Stage::Commit ==> goes_on(
            r,
            recovery_step(r, RecoveryEvent::Accepted),
            if names(r.intent.desired, r.intent.expected.primary) {
                Stage::ClearRetained
            } else {
                Stage::Finish
            },
        ),
        r.stage == Stage::ClearRetained ==> if generation == 0 {
            goes_on(r, recovery_step(r, RecoveryEvent::Fence(generation)), Stage::Finish)
        } else {
            recovery_step(r, RecoveryEvent::Fence(generation)) == Err::<
                RecoveryView,
                ControlFault,
            >(ControlFault::RetainedFenced { operation_id: r.intent.operation_id, generation })
        },
        r.stage == Stage::Finish ==> goes_on(
            r,
            recovery_step(r, RecoveryEvent::Accepted),
            Stage::Done,
        ),
{
    lemma_nodes_contain(r.intent);
}

/// The action proposes a command.
pub open spec fn proposes(action: ActionView, command: CommandView) -> bool {
    action matches ActionView::Propose { command: proposed, .. } && proposed == command
}

/// What a resolution asks for. The source is the expected primary: it is released or freed of the
/// recorded fence; before an attestation a preparing move puts that fence up again, and the others
/// only ask. The desired members are asked for their fence and for their content. Every proposal
/// is of the intent's operation, and the evidence that it carries is the recorded one, or what was
/// measured, at the intent's generation.
pub proof fn lemma_resolution_asks(r: RecoveryView, endpoint: Seq<char>, i: usize)
    requires
        i <= r.intent.desired.replicas.len(),
    ensures
        ({
            let asked = recovery_action(r, endpoint);
            let source = r.intent.expected.primary;
            let fence = r.intent.source_fence_generation;
            let operation_id = r.intent.operation_id;
            let member = if i == 0 {
                r.intent.desired.primary
            } else {
                r.intent.desired.replicas[i - 1]
            };
            let recorded = match r.intent.phase {
                PhaseView::Ready(evidence) => evidence,
                _ => EvidenceView {
                    live_generation: r.intent.live_generation,
                    members: sorted_by_key::<MoveMemberEvidence>(r.evidence),
                },
            };
            &&& r.stage == Stage::ReleaseSource || r.stage == Stage::ClearRetained ==> {
                &&& asked == ActionView::Unfence { node: source, endpoint, generation: fence }
                &&& stage_member(r) == Some(source)
            }
            &&& r.stage == Stage::CheckSource ==> {
                &&& asked == ActionView::Fence {
                    node: source,
                    endpoint,
                    generation: if r.intent.phase == PhaseView::Preparing {
                        fence
                    } else {
                        0
                    },
                }
                &&& stage_member(r) == Some(source)
            }
            &&& r.stage == Stage::ProbeDesired(i) ==> {
                &&& asked == ActionView::Fence { node: member, endpoint, generation: 0 }
                &&& stage_member(r) == Some(member)
            }
            &&& r.stage == Stage::MeasureDesired(i) ==> {
                &&& asked == ActionView::Fingerprint { node: member, endpoint }
                &&& stage_member(r) == Some(member)
            }
            &&& r.stage == Stage::Abort ==> proposes(
                asked,
                CommandView::Abort { operation_id },
            )
            &&& r.stage == Stage::MarkReady ==> proposes(
                asked,
                CommandView::MarkReady { operation_id, evidence: recorded },
            )
            &&& r.stage == Stage::Commit ==> proposes(
                asked,
                CommandView::Commit { operation_id },
            )
            &&& r.stage == Stage::Finish ==> proposes(
                asked,
                CommandView::Finish { operation_id },
            )
            &&& r.stage == Stage::Done ==> asked == ActionView::Finished
        }),
{
    let desired = r.intent.desired;
    lemma_nodes(desired);
    if i > 0 {
        assert(desired.replicas[i - 1] == desired.nodes()[i as int]);
    }
}

/// An answer belongs to a stage: it is one that the action of the stage can have.
pub open spec fn answers(stage: Stage, event: RecoveryEvent) -> bool {
    match event {
        RecoveryEvent::Fence(_) => stage is ReleaseSource || stage is CheckSource || stage
            is ProbeDesired || stage is ClearRetained,
        RecoveryEvent::Fingerprint { .. } => stage is MeasureDesired,
        RecoveryEvent::Accepted => stage is Abort || stage is MarkReady || stage is Commit || stage
            is Finish,
    }
}

/// An answer that does not belong to the stage changes nothing; none changes the intent, and only
/// the content of a member adds to the evidence. While there are desired members to ask, an answer
/// that belongs takes the resolution on, or ends it in a fault.
pub proof fn lemma_answers(r: RecoveryView, event: RecoveryEvent)
    ensures
        !answers(r.stage, event) ==> recovery_step(r, event) == Ok::<RecoveryView, ControlFault>(r),
        recovery_step(r, event) matches Ok(next) ==> next.intent == r.intent,
        recovery_step(r, event) matches Ok(next) ==> (r.stage is MeasureDesired || next.evidence
            == r.evidence),
        (r.stage matches Stage::ProbeDesired(i) && i > r.intent.desired.replicas.len())
            ==> recovery_step(r, event) == Ok::<RecoveryView, ControlFault>(r),
        (r.stage matches Stage::MeasureDesired(i) && i > r.intent.desired.replicas.len())
            ==> recovery_step(r, event) == Ok::<RecoveryView, ControlFault>(r),
        answers(r.stage, event) && (stage_member(r) is Some || !(event is Fence
            || event is Fingerprint)) ==> (recovery_step(r, event) matches Ok(next) ==> next.stage
            != r.stage),
{
}

/// What an operator is told about a proposal of the startup; and behind the last desired member
/// there is nothing to ask.
pub proof fn lemma_contexts(r: RecoveryView, endpoint: Seq<char>)
    ensures
        match r.stage {
            Stage::Abort => recovery_action(r, endpoint)->context
                == "startup: abort preparing move"@,
            Stage::MarkReady => recovery_action(r, endpoint)->context
                == "startup: persist recovered move evidence"@,
            Stage::Commit => recovery_action(r, endpoint)->context
                == "startup: conditionally commit recovered move"@,
            Stage::Finish => recovery_action(r, endpoint)->context
                == "startup: finish recovered move"@,
            _ => !(recovery_action(r, endpoint) is Propose),
        },
        r.stage is Abort || r.stage is MarkReady || r.stage is Commit || r.stage is Finish
            ==> recovery_action(r, endpoint) is Propose,
        (r.stage matches Stage::ProbeDesired(i) && i > r.intent.desired.replicas.len())
            ==> recovery_action(r, endpoint) == ActionView::Finished,
        (r.stage matches Stage::MeasureDesired(i) && i > r.intent.desired.replicas.len())
            ==> recovery_action(r, endpoint) == ActionView::Finished,
{
}

/// A pass is done exactly once no operation of its queue is left to be taken up.
pub proof fn lemma_pass_done(s: SweepView)
    ensures
        pass_done(s) <==> s.queue.len() <= s.at,
{
}

} // verus!
