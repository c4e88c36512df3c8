//! What each move command decides and does, read off the tables: when it is applied, when it is
//! already in force, when it is refused, and what is left of the document after it.

use vstd::prelude::*;

use crate::control::changed;
use crate::control_laws::{intents_consistent, well_formed};
use crate::document::{
    AssignmentView, ChangeView, ClusterStateView, CommandView, EvidenceView, IntentView,
    MemberView, MoveCommandOutcome, MoveInitialAuthority, MoveIntent, NodeId, PhaseView,
};
use crate::document_laws::{
    evidence_stands, identities_stand, is_generation, is_placed, lemma_assign_shard,
    lemma_canonical_tables, lemma_evidence, lemma_identities, lemma_predicate, lemma_reads,
    one_more, predicate_stands, same_frame, tables_in_order,
};
use crate::keyed::{Keyed, has_key, lemma_appended};
use crate::move_intent::{
    begin_valid, endpoint_reserved, first_operation_at, format_fenced, identities_hold,
    identity_holds, move_outcome, move_state, operation_index, share_endpoint, with_assignment,
};

verus! {

/// The tables are in order, and no two active intents are of one operation.
pub open spec fn document_in_order(state: ClusterStateView) -> bool {
    &&& tables_in_order(state)
    &&& forall|i: int, j: int|
        0 <= i < j < state.moves.intents.len() ==> (#[trigger] state.moves.intents[i]).operation_id
            != (#[trigger] state.moves.intents[j]).operation_id
}

/// A well-formed document is in order.
pub proof fn lemma_well_formed_in_order(state: ClusterStateView)
    requires
        well_formed(state),
    ensures
        document_in_order(state),
{
    lemma_canonical_tables(state);
    assert(intents_consistent(state.moves.intents));
}

/// Two intents record one endpoint.
pub open spec fn endpoints_meet(a: IntentView, b: IntentView) -> bool {
    exists|i: int, j: int|
        0 <= i < a.members.len() && 0 <= j < b.members.len() && (#[trigger] a.members[i]).endpoint
            == (#[trigger] b.members[j]).endpoint
}

/// An intent may begin, as far as it goes by itself and by where its nodes are registered.
pub open spec fn may_begin(state: ClusterStateView, intent: IntentView) -> bool {
    &&& intent.intent_version == 1
    &&& intent.operation_id != 0
    &&& intent.position < state.num_shards
    &&& intent.expected.position == intent.position
    &&& intent.desired.position == intent.position
    &&& intent.expected != intent.desired
    &&& intent.initial_authority == MoveInitialAuthority::Expected ==> intent.live_generation > 0
    &&& intent.phase == PhaseView::Preparing
    &&& identities_stand(state, intent)
}

/// No active intent is of this one's operation or position, or records one of its endpoints.
pub open spec fn unopposed(state: ClusterStateView, intent: IntentView) -> bool {
    forall|i: int|
        0 <= i < state.moves.intents.len() ==> {
            let active = #[trigger] state.moves.intents[i];
            &&& active.operation_id != intent.operation_id
            &&& active.position != intent.position
            &&& !endpoints_meet(active, intent)
        }
}

/// The intent of an operation is active, at this place of the table.
pub open spec fn is_active(state: ClusterStateView, operation_id: u64, i: int) -> bool {
    0 <= i < state.moves.intents.len() && state.moves.intents[i].operation_id == operation_id
}

/// No intent of an operation is active.
pub open spec fn is_idle(state: ClusterStateView, operation_id: u64) -> bool {
    forall|i: int|
        0 <= i < state.moves.intents.len() ==> (#[trigger] state.moves.intents[i]).operation_id
            != operation_id
}

/// Two documents agree in everything but the intents and the mark of the move format, which the
/// second has.
pub open spec fn only_intents_differ(before: ClusterStateView, after: ClusterStateView) -> bool {
    &&& same_frame(after, before)
    &&& after.nodes == before.nodes
    &&& after.assignments == before.assignments
    &&& after.moves.assignment_generations == before.moves.assignment_generations
    &&& after.moves.format_version == 4
}

proof fn lemma_active(state: ClusterStateView, operation_id: u64, i: int)
    requires
        document_in_order(state),
        is_active(state, operation_id, i),
    ensures
        operation_index(state.moves.intents, operation_id) == Some(i),
{
    let intents = state.moves.intents;
    assert forall|j: int| 0 <= j < i implies (#[trigger] intents[j]).operation_id
        != operation_id by {
        assert(intents[j].operation_id != intents[i].operation_id);
    }
    assert(first_operation_at(intents, operation_id, i));
    let c = choose|c: int| first_operation_at(intents, operation_id, c);
    assert(first_operation_at(intents, operation_id, c));
    if c < i {
        assert(intents[c].operation_id != operation_id);
    } else if i < c {
        assert(intents[i].operation_id != operation_id);
    }
}

proof fn lemma_idle(state: ClusterStateView, operation_id: u64)
    requires
        is_idle(state, operation_id),
    ensures
        operation_index(state.moves.intents, operation_id) is None,
{
    let intents = state.moves.intents;
    if exists|c: int| first_operation_at(intents, operation_id, c) {
        let c = choose|c: int| first_operation_at(intents, operation_id, c);
        assert(intents[c].operation_id != operation_id);
    }
}

proof fn lemma_some_active(state: ClusterStateView, operation_id: u64) -> (i: int)
    requires
        !is_idle(state, operation_id),
    ensures
        is_active(state, operation_id, i),
{
    choose|i: int|
        0 <= i < state.moves.intents.len() && (#[trigger] state.moves.intents[i]).operation_id
            == operation_id
}

// ---- Begin ---------------------------------------------------------------------------------

/// A begin is applied exactly where it may be: the intent may begin, nothing active opposes it,
/// and the document is what it was planned against. It is in force already where the very
/// transition is active, in whatever phase. An intent that may not begin is invalid, and every
/// other one has lost its race.
#[verifier::spinoff_prover]
pub proof fn lemma_begin_decides(state: ClusterStateView, intent: IntentView)
    requires
        document_in_order(state),
    ensures
        ({
            let outcome = move_outcome(state, CommandView::Begin(intent));
            let repeated = exists|i: int| #[trigger]
                is_active(state, intent.operation_id, i) && state.moves.intents[i].same_transition(
                    intent,
                );
            &&& outcome == MoveCommandOutcome::Applied <==> {
                &&& may_begin(state, intent)
                &&& unopposed(state, intent)
                &&& predicate_stands(state, intent)
            }
            &&& outcome == MoveCommandOutcome::AlreadyApplied <==> may_begin(state, intent)
                && repeated
            &&& outcome == MoveCommandOutcome::Invalid <==> !may_begin(state, intent)
        }),
{
    let intents = state.moves.intents;
    let id = intent.operation_id;
    lemma_identities(state, intent);
    lemma_predicate(state, intent);
    assert(begin_valid(state, intent) <==> may_begin(state, intent));
    assert forall|i: int| 0 <= i < intents.len() implies (endpoints_meet(
        #[trigger] intents[i],
        intent,
    ) <==> share_endpoint(intents[i], intent)) by {}
    if is_idle(state, id) {
        lemma_idle(state, id);
        assert(unopposed(state, intent) <==> !has_key::<MoveIntent>(
            intents,
            intent.position as u64,
        ) && !endpoint_reserved(intents, intent)) by {
            if unopposed(state, intent) {
                if has_key::<MoveIntent>(intents, intent.position as u64) {
                    let i = choose|i: int|
                        0 <= i < intents.len() && MoveIntent::key_of(#[trigger] intents[i])
                            == intent.position as u64;
                    assert(intents[i].position == intent.position);
                }
                if endpoint_reserved(intents, intent) {
                    let i = choose|i: int|
                        0 <= i < intents.len() && share_endpoint(#[trigger] intents[i], intent);
                    assert(endpoints_meet(intents[i], intent));
                }
            }
            if !has_key::<MoveIntent>(intents, intent.position as u64) && !endpoint_reserved(
                intents,
                intent,
            ) {
                assert forall|i: int| 0 <= i < intents.len() implies {
                    let active = #[trigger] intents[i];
                    &&& active.operation_id != intent.operation_id
                    &&& active.position != intent.position
                    &&& !endpoints_meet(active, intent)
                } by {
                    assert(MoveIntent::key_of(intents[i]) != intent.position as u64);
                    assert(!share_endpoint(intents[i], intent));
                }
            }
        }
    } else {
        let i = lemma_some_active(state, id);
        lemma_active(state, id, i);
        assert forall|j: int| #[trigger] is_active(state, id, j) implies j == i by {
            lemma_active(state, id, j);
        }
        assert(!unopposed(state, intent)) by {
            assert(intents[i].operation_id == id);
        }
        assert(is_active(state, id, i));
    }
}

/// A begin that is applied adds its intent to the active ones, and does nothing else.
pub proof fn lemma_begin_adds(state: ClusterStateView, intent: IntentView)
    requires
        document_in_order(state),
        move_outcome(state, CommandView::Begin(intent)) == MoveCommandOutcome::Applied,
    ensures
        ({
            let next = move_state(state, CommandView::Begin(intent));
            &&& forall|a: IntentView| #[trigger]
                next.moves.intents.contains(a) <==> state.moves.intents.contains(a) || a == intent
            &&& document_in_order(next)
            &&& only_intents_differ(state, next)
        }),
{
    let next = move_state(state, CommandView::Begin(intent));
    let intents = state.moves.intents;
    lemma_begin_decides(state, intent);
    lemma_canonical_tables(state);
    assert(!has_key::<MoveIntent>(intents, intent.position as u64)) by {
        if has_key::<MoveIntent>(intents, intent.position as u64) {
            let i = choose|i: int|
                0 <= i < intents.len() && MoveIntent::key_of(#[trigger] intents[i])
                    == intent.position as u64;
            assert(intents[i].position == intent.position);
        }
    }
    lemma_appended::<MoveIntent>(intents, intent);
    lemma_canonical_tables(next);
    let after = next.moves.intents;
    assert forall|i: int, j: int| 0 <= i < j < after.len() implies (
    #[trigger] after[i]).operation_id != (#[trigger] after[j]).operation_id by {
        assert(MoveIntent::key_of(after[i]) < MoveIntent::key_of(after[j]));
        assert(after.contains(after[i]) && after.contains(after[j]));
        lemma_operations_apart(state, intent, after[i], after[j]);
    }
}

proof fn lemma_operations_apart(
    state: ClusterStateView,
    intent: IntentView,
    a: IntentView,
    b: IntentView,
)
    requires
        document_in_order(state),
        unopposed(state, intent),
        state.moves.intents.contains(a) || a == intent,
        state.moves.intents.contains(b) || b == intent,
        a.position != b.position,
    ensures
        a.operation_id != b.operation_id,
{
    let intents = state.moves.intents;
    if a == intent {
        let j = choose|j: int| 0 <= j < intents.len() && intents[j] == b;
        assert(intents[j].operation_id != intent.operation_id);
    } else if b == intent {
        let i = choose|i: int| 0 <= i < intents.len() && intents[i] == a;
        assert(intents[i].operation_id != intent.operation_id);
    } else {
        let i = choose|i: int| 0 <= i < intents.len() && intents[i] == a;
        let j = choose|j: int| 0 <= j < intents.len() && intents[j] == b;
        if i < j {
            assert(intents[i].operation_id != intents[j].operation_id);
        } else {
            assert(intents[j].operation_id != intents[i].operation_id);
        }
    }
}

/// Moves of different positions at different endpoints do not hinder each other: where each of
/// two intents may begin, both are applied, in either order.
pub proof fn lemma_disjoint_moves_both_begin(
    state: ClusterStateView,
    first: IntentView,
    second: IntentView,
)
    requires
        document_in_order(state),
        may_begin(state, first) && unopposed(state, first) && predicate_stands(state, first),
        may_begin(state, second) && unopposed(state, second) && predicate_stands(state, second),
        first.operation_id != second.operation_id,
        first.position != second.position,
        !endpoints_meet(first, second),
        !endpoints_meet(second, first),
    ensures
        ({
            let begun = move_state(state, CommandView::Begin(first));
            let both = move_state(begun, CommandView::Begin(second));
            &&& move_outcome(state, CommandView::Begin(first)) == MoveCommandOutcome::Applied
            &&& move_outcome(begun, CommandView::Begin(second)) == MoveCommandOutcome::Applied
            &&& forall|a: IntentView| #[trigger]
                both.moves.intents.contains(a) <==> state.moves.intents.contains(a) || a == first
                    || a == second
        }),
{
    let begun = move_state(state, CommandView::Begin(first));
    lemma_begin_decides(state, first);
    lemma_begin_adds(state, first);
    lemma_stands_in_both(state, begun, second);
    let active = begun.moves.intents;
    assert forall|i: int| 0 <= i < active.len() implies {
        let a = #[trigger] active[i];
        &&& a.operation_id != second.operation_id
        &&& a.position != second.position
        &&& !endpoints_meet(a, second)
    } by {
        assert(active.contains(active[i]));
        if active[i] != first {
            let j = choose|j: int|
                0 <= j < state.moves.intents.len() && state.moves.intents[j] == active[i];
            assert(state.moves.intents[j].operation_id != second.operation_id);
        }
    }
    assert(unopposed(begun, second));
    lemma_begin_decides(begun, second);
    lemma_begin_adds(begun, second);
}

/// What an intent asks of the document does not depend on what other intents are active.
proof fn lemma_stands_in_both(
    state: ClusterStateView,
    other: ClusterStateView,
    intent: IntentView,
)
    requires
        tables_in_order(state),
        tables_in_order(other),
        only_intents_differ(state, other),
    ensures
        may_begin(other, intent) == may_begin(state, intent),
        predicate_stands(other, intent) == predicate_stands(state, intent),
{
    lemma_identities(state, intent);
    lemma_identities(other, intent);
    assert forall|m: MemberView|
        identity_holds(other, m) == identity_holds(
            state,
            m,
        ) by {}
    assert(identities_hold(other, intent)
        == identities_hold(state, intent));
    lemma_predicate(state, intent);
    lemma_predicate(other, intent);
    lemma_reads(state, intent.position, NodeId(0));
    lemma_reads(other, intent.position, NodeId(0));
    assert(is_placed(state, intent.position, intent.expected) == is_placed(
        other,
        intent.position,
        intent.expected,
    ));
    assert(is_generation(state, intent.position, intent.expected_assignment_generation)
        == is_generation(other, intent.position, intent.expected_assignment_generation));
}

// ---- The other commands --------------------------------------------------------------------

/// Recording evidence: without the intent there is nothing to record it for. Evidence of other
/// nodes or of another generation is invalid. A preparing intent takes it where the document is
/// what it was planned against; one that has recorded evidence accepts the same, and no other.
#[verifier::spinoff_prover]
pub proof fn lemma_ready_decides(
    state: ClusterStateView,
    operation_id: u64,
    evidence: EvidenceView,
    i: int,
)
    requires
        document_in_order(state),
    ensures
        ({
            let outcome = move_outcome(state, CommandView::MarkReady { operation_id, evidence });
            let intent = state.moves.intents[i];
            &&& is_idle(state, operation_id) ==> outcome == MoveCommandOutcome::Conflict
            &&& is_active(state, operation_id, i) ==> {
                &&& outcome == MoveCommandOutcome::Invalid <==> !evidence_stands(intent, evidence)
                &&& outcome == MoveCommandOutcome::Applied <==> {
                    &&& evidence_stands(intent, evidence)
                    &&& intent.phase == PhaseView::Preparing
                    &&& predicate_stands(state, intent)
                    &&& identities_stand(state, intent)
                }
                &&& outcome == MoveCommandOutcome::AlreadyApplied <==> {
                    &&& evidence_stands(intent, evidence)
                    &&& intent.phase == PhaseView::Ready(evidence) || intent.phase
                        == PhaseView::Committed(evidence)
                }
            }
        }),
{
    if is_idle(state, operation_id) {
        lemma_idle(state, operation_id);
    }
    if is_active(state, operation_id, i) {
        lemma_active(state, operation_id, i);
        lemma_evidence(state.moves.intents[i], evidence);
        lemma_predicate(state, state.moves.intents[i]);
    }
}

/// Committing: only an intent that has recorded its evidence is committed, and only where the
/// document is what it was planned against; a committed one is in force as long as the desired
/// assignment is.
#[verifier::spinoff_prover]
pub proof fn lemma_commit_decides(state: ClusterStateView, operation_id: u64, i: int)
    requires
        document_in_order(state),
    ensures
        ({
            let outcome = move_outcome(state, CommandView::Commit { operation_id });
            let intent = state.moves.intents[i];
            &&& outcome != MoveCommandOutcome::Invalid
            &&& is_idle(state, operation_id) ==> outcome == MoveCommandOutcome::Conflict
            &&& is_active(state, operation_id, i) ==> {
                &&& outcome == MoveCommandOutcome::Applied <==> {
                    &&& intent.phase is Ready
                    &&& predicate_stands(state, intent)
                    &&& identities_stand(state, intent)
                }
                &&& outcome == MoveCommandOutcome::AlreadyApplied <==> intent.phase is Committed
                    && is_placed(state, intent.position, intent.desired)
            }
        }),
{
    if is_idle(state, operation_id) {
        lemma_idle(state, operation_id);
    }
    if is_active(state, operation_id, i) {
        let intent = state.moves.intents[i];
        lemma_active(state, operation_id, i);
        lemma_predicate(state, intent);
        lemma_reads(state, intent.position, NodeId(0));
        assert(is_placed(state, intent.position, intent.desired) <==> state.assignment(
            intent.position,
        ) == Some(intent.desired));
    }
}

/// Aborting and finishing: an intent that is gone needs neither. Only a preparing intent whose
/// expected side served is aborted; only a committed one whose desired assignment is in force is
/// finished; and each only while the nodes are where the intent has them.
#[verifier::spinoff_prover]
pub proof fn lemma_end_decides(state: ClusterStateView, operation_id: u64, i: int)
    requires
        document_in_order(state),
    ensures
        ({
            let aborted = move_outcome(state, CommandView::Abort { operation_id });
            let finished = move_outcome(state, CommandView::Finish { operation_id });
            let intent = state.moves.intents[i];
            &&& is_idle(state, operation_id) ==> aborted == MoveCommandOutcome::AlreadyApplied
                && finished == MoveCommandOutcome::AlreadyApplied
            &&& is_active(state, operation_id, i) ==> {
                &&& aborted == if intent.phase == PhaseView::Preparing && intent.initial_authority
                    == MoveInitialAuthority::Expected && identities_stand(state, intent) {
                    MoveCommandOutcome::Applied
                } else {
                    MoveCommandOutcome::Conflict
                }
                &&& finished == if intent.phase is Committed && is_placed(
                    state,
                    intent.position,
                    intent.desired,
                ) && identities_stand(state, intent) {
                    MoveCommandOutcome::Applied
                } else {
                    MoveCommandOutcome::Conflict
                }
            }
        }),
{
    if is_idle(state, operation_id) {
        lemma_idle(state, operation_id);
    }
    if is_active(state, operation_id, i) {
        let intent = state.moves.intents[i];
        lemma_active(state, operation_id, i);
        lemma_identities(state, intent);
        lemma_reads(state, intent.position, NodeId(0));
        assert(is_placed(state, intent.position, intent.desired) <==> state.assignment(
            intent.position,
        ) == Some(intent.desired));
    }
}

/// The command leaves the intents as they are, but for this one, which is then in this phase.
pub open spec fn phase_set(
    before: Seq<IntentView>,
    after: Seq<IntentView>,
    i: int,
    phase: PhaseView,
) -> bool {
    &&& after.len() == before.len()
    &&& forall|j: int| 0 <= j < before.len() && j != i ==> #[trigger] after[j] == before[j]
    &&& after[i].phase == phase
    &&& after[i] == (IntentView { phase: after[i].phase, ..before[i] })
}

/// What an applied command does. Recorded evidence stands in its intent; a commit puts the
/// desired assignment in place of what its position had, counts the write, and keeps the
/// evidence; an abort and a finish take their intent out. Nothing else changes.
#[verifier::spinoff_prover]
pub proof fn lemma_applied_effects(state: ClusterStateView, command: CommandView, i: int)
    requires
        document_in_order(state),
        !(command is Begin),
        is_active(state, command.operation(), i),
        move_outcome(state, command) == MoveCommandOutcome::Applied,
    ensures
        ({
            let next = move_state(state, command);
            let before = state.moves.intents;
            let after = next.moves.intents;
            let intent = before[i];
            match command {
                CommandView::Begin(_) => true,
                CommandView::MarkReady { evidence, .. } => {
                    &&& phase_set(before, after, i, PhaseView::Ready(evidence))
                    &&& only_intents_differ(state, next)
                },
                CommandView::Commit { .. } => {
                    &&& intent.phase matches PhaseView::Ready(evidence) && phase_set(
                        before,
                        after,
                        i,
                        PhaseView::Committed(evidence),
                    )
                    &&& forall|x: AssignmentView| #[trigger]
                        next.assignments.contains(x) <==> x == intent.desired || (
                        state.assignments.contains(x) && x.position != intent.desired.position)
                    &&& forall|g: u64| #[trigger]
                        is_generation(state, intent.desired.position, g) ==> is_generation(
                            next,
                            intent.desired.position,
                            one_more(g),
                        )
                    &&& forall|p: u32, g: u64|
                        p != intent.desired.position ==> (#[trigger] is_generation(next, p, g)
                            <==> is_generation(state, p, g))
                    &&& same_frame(next, state)
                    &&& next.nodes == state.nodes
                    &&& next.moves.format_version == 4
                },
                CommandView::Abort { .. } | CommandView::Finish { .. } => {
                    &&& after == before.take(i) + before.skip(i + 1)
                    &&& only_intents_differ(state, next)
                },
            }
        }),
{
    let next = move_state(state, command);
    let before = state.moves.intents;
    lemma_active(state, command.operation(), i);
    match command {
        CommandView::Commit { operation_id } => {
            lemma_commit_decides(state, operation_id, i);
            let marked = format_fenced(state);
            lemma_canonical_tables(state);
            lemma_canonical_tables(marked);
            lemma_assign_shard(marked, before[i].desired);
            let assigned = with_assignment(marked, before[i].desired);
            assert(assigned == changed(marked, ChangeView::AssignShard(before[i].desired)));
            assert(next.moves.assignment_generations == assigned.moves.assignment_generations);
            assert(next.assignments == assigned.assignments);
            assert forall|p: u32, g: u64| #[trigger] is_generation(next, p, g)
                == is_generation(assigned, p, g) by {}
            assert forall|p: u32, g: u64| #[trigger]
                is_generation(state, p, g) == is_generation(marked, p, g) by {}
        },
        CommandView::Abort { .. } | CommandView::Finish { .. } => {
            assert(before.remove(i) =~= before.take(i) + before.skip(i + 1));
        },
        _ => {},
    }
}

/// A command that is not applied only marks the document with the move format.
pub proof fn lemma_unapplied_effects(state: ClusterStateView, command: CommandView)
    requires
        move_outcome(state, command) != MoveCommandOutcome::Applied,
    ensures
        ({
            let next = move_state(state, command);
            &&& next.moves.intents == state.moves.intents
            &&& only_intents_differ(state, next)
        }),
{
}

} // verus!
