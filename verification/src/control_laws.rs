//! What holds of the control document across transitions: its canonical form, the order in
//! which independent changes arrive, and the protocol of the move commands.

use vstd::prelude::*;

use crate::control::{changed, committed, default_assignment, filled, genesis};
use crate::document::{
    AssignmentGeneration, AssignmentView, ChangeView, ClusterStateView, CommandView, EvidenceView,
    IntentView, MOVE_CONTROL_FORMAT_CURRENT, MemberView, MoveCommandOutcome, MoveIntent,
    NodeDescriptor, NodeId, NodeView, PhaseView, ShardAssignment, lemma_node_set, node_set,
};
use crate::keyed::{
    Keyed, canonical, first_key_at, first_with_key, has_key, key_index, keys_below, lemma_appended,
    lemma_canonical_unique, lemma_first_with_key, lemma_first_with_key_none, lemma_found,
    lemma_has_key, lemma_installed, lemma_keys_below, lemma_lookup, lemma_same_lookup,
    lemma_without_key, place, sorted_by_key, without_key,
};
use crate::move_intent::{
    begin_outcome, begin_valid, bumped, endpoint_reserved, evidence_fits, first_operation_at,
    format_fenced, identities_hold, identity_holds, lemma_format_irrelevant, members_cover,
    move_outcome, move_state, operation_index, predicate_holds, saturating_next, share_endpoint,
    with_assignment,
};
use crate::text::normalized;

verus! {

/// The evidence that an intent has recorded is of its generation and its desired members.
pub open spec fn recorded_evidence_fits(intent: IntentView) -> bool {
    match intent.phase {
        PhaseView::Preparing => true,
        PhaseView::Ready(evidence) => evidence_fits(intent, evidence),
        PhaseView::Committed(evidence) => evidence_fits(intent, evidence),
    }
}

/// What is true of an intent once it began: it is about its own position, records exactly the
/// nodes of both assignments, each at a normalized endpoint, and its evidence is its own.
pub open spec fn intent_sound(intent: IntentView) -> bool {
    &&& intent.desired.position == intent.position
    &&& intent.operation_id != 0
    &&& members_cover(intent)
    &&& forall|i: int|
        0 <= i < intent.members.len() ==> (#[trigger] intent.members[i]).endpoint.len() > 0
            && intent.members[i].endpoint == normalized(intent.members[i].endpoint)
    &&& recorded_evidence_fits(intent)
}

/// Two different active intents are of different operations and positions, and reserve
/// disjoint endpoints; and each is sound.
pub open spec fn intents_consistent(intents: Seq<IntentView>) -> bool {
    &&& canonical::<MoveIntent>(intents)
    &&& forall|i: int, j: int|
        0 <= i < j < intents.len() ==> (#[trigger] intents[i]).operation_id != (
        #[trigger] intents[j]).operation_id && !share_endpoint(intents[i], intents[j])
    &&& forall|i: int| 0 <= i < intents.len() ==> intent_sound(#[trigger] intents[i])
}

/// The canonical form of the document: every table in strictly increasing order of its key,
/// and the active intents consistent.
pub open spec fn well_formed(state: ClusterStateView) -> bool {
    &&& canonical::<NodeDescriptor>(state.nodes)
    &&& canonical::<NodeId>(state.voters)
    &&& canonical::<ShardAssignment>(state.assignments)
    &&& canonical::<AssignmentGeneration>(state.moves.assignment_generations)
    &&& intents_consistent(state.moves.intents)
}

// ---- Helpers -------------------------------------------------------------------------------

proof fn lemma_share_symmetric(a: IntentView, b: IntentView)
    ensures
        share_endpoint(a, b) == share_endpoint(b, a),
{
    if share_endpoint(a, b) {
        let (i, j) = choose|i: int, j: int|
            0 <= i < a.members.len() && 0 <= j < b.members.len() && (
            #[trigger] a.members[i]).endpoint == (#[trigger] b.members[j]).endpoint;
        assert(b.members[j].endpoint == a.members[i].endpoint);
    }
    if share_endpoint(b, a) {
        let (i, j) = choose|i: int, j: int|
            0 <= i < b.members.len() && 0 <= j < a.members.len() && (
            #[trigger] b.members[i]).endpoint == (#[trigger] a.members[j]).endpoint;
        assert(a.members[j].endpoint == b.members[i].endpoint);
    }
}

proof fn lemma_operation_found(intents: Seq<IntentView>, operation: u64)
    requires
        operation_index(intents, operation) is Some,
    ensures
        first_operation_at(intents, operation, operation_index(intents, operation)->0),
{
}

/// Every active intent is found by its operation.
pub proof fn lemma_operation_at(intents: Seq<IntentView>, i: int)
    requires
        intents_consistent(intents),
        0 <= i < intents.len(),
    ensures
        operation_index(intents, intents[i].operation_id) == Some(i),
{
    let operation = intents[i].operation_id;
    assert(first_operation_at(intents, operation, i));
    let c = choose|c: int| first_operation_at(intents, operation, c);
    assert(first_operation_at(intents, operation, c));
    if c < i {
        assert(intents[c].operation_id != intents[i].operation_id);
    } else if i < c {
        assert(intents[i].operation_id != intents[c].operation_id);
    }
}

proof fn lemma_operation_absent(intents: Seq<IntentView>, operation: u64)
    ensures
        operation_index(intents, operation) is None <==> forall|i: int|
            0 <= i < intents.len() ==> (#[trigger] intents[i]).operation_id != operation,
{
    if exists|i: int| 0 <= i < intents.len() && (#[trigger] intents[i]).operation_id == operation {
        let i = choose|i: int|
            0 <= i < intents.len() && (#[trigger] intents[i]).operation_id == operation;
        lemma_first_operation(intents, operation, i);
    }
    if operation_index(intents, operation) is Some {
        lemma_operation_found(intents, operation);
    }
}

proof fn lemma_first_operation(intents: Seq<IntentView>, operation: u64, i: int)
    requires
        0 <= i < intents.len(),
        intents[i].operation_id == operation,
    ensures
        exists|f: int| first_operation_at(intents, operation, f),
    decreases i,
{
    if exists|j: int| 0 <= j < i && (#[trigger] intents[j]).operation_id == operation {
        let j = choose|j: int| 0 <= j < i && (#[trigger] intents[j]).operation_id == operation;
        lemma_first_operation(intents, operation, j);
    } else {
        assert(first_operation_at(intents, operation, i));
    }
}

/// Adding an intent that conflicts with none.
proof fn lemma_intent_added(intents: Seq<IntentView>, intent: IntentView)
    requires
        intents_consistent(intents),
        operation_index(intents, intent.operation_id) is None,
        !has_key::<MoveIntent>(intents, intent.position as u64),
        !endpoint_reserved(intents, intent),
        intent_sound(intent),
    ensures
        ({
            let added = sorted_by_key::<MoveIntent>(intents.push(intent));
            &&& intents_consistent(added)
            &&& forall|x: IntentView| #[trigger]
                added.contains(x) <==> (intents.contains(x) || x == intent)
        }),
{
    let added = sorted_by_key::<MoveIntent>(intents.push(intent));
    lemma_appended::<MoveIntent>(intents, intent);
    lemma_operation_absent(intents, intent.operation_id);
    assert forall|i: int, j: int| 0 <= i < j < added.len() implies (
    #[trigger] added[i]).operation_id != (#[trigger] added[j]).operation_id && !share_endpoint(
        added[i],
        added[j],
    ) by {
        let x = added[i];
        let y = added[j];
        assert(MoveIntent::key_of(x) < MoveIntent::key_of(y));
        assert(added.contains(x) && added.contains(y));
        if x != intent && y != intent {
            let a = choose|a: int| 0 <= a < intents.len() && intents[a] == x;
            let b = choose|b: int| 0 <= b < intents.len() && intents[b] == y;
            if a < b {
                assert(intents[a].operation_id != intents[b].operation_id);
            } else if b < a {
                assert(MoveIntent::key_of(intents[b]) < MoveIntent::key_of(intents[a]));
            }
        } else if x == intent {
            let b = choose|b: int| 0 <= b < intents.len() && intents[b] == y;
            assert(intents[b].operation_id != intent.operation_id);
            lemma_share_symmetric(x, y);
            assert(!share_endpoint(intents[b], intent));
        } else {
            let a = choose|a: int| 0 <= a < intents.len() && intents[a] == x;
            assert(intents[a].operation_id != intent.operation_id);
            assert(!share_endpoint(intents[a], intent));
        }
    }
    assert forall|i: int| 0 <= i < added.len() implies intent_sound(#[trigger] added[i]) by {
        let x = added[i];
        assert(added.contains(x));
        if x != intent {
            let a = choose|a: int| 0 <= a < intents.len() && intents[a] == x;
            assert(intent_sound(intents[a]));
        }
    }
}

/// Advancing the phase of one intent.
proof fn lemma_intent_advanced(intents: Seq<IntentView>, i: int, phase: PhaseView)
    requires
        intents_consistent(intents),
        0 <= i < intents.len(),
        recorded_evidence_fits(intents[i].in_phase(phase)),
    ensures
        intents_consistent(intents.update(i, intents[i].in_phase(phase))),
{
    let next = intents.update(i, intents[i].in_phase(phase));
    assert forall|a: int, b: int| 0 <= a < b < next.len() implies MoveIntent::key_of(
        #[trigger] next[a],
    ) < MoveIntent::key_of(#[trigger] next[b]) by {
        assert(MoveIntent::key_of(intents[a]) < MoveIntent::key_of(intents[b]));
    }
    assert forall|a: int, b: int| 0 <= a < b < next.len() implies (
    #[trigger] next[a]).operation_id != (#[trigger] next[b]).operation_id && !share_endpoint(
        next[a],
        next[b],
    ) by {
        assert(intents[a].operation_id != intents[b].operation_id);
        assert(next[a].members == intents[a].members);
        assert(next[b].members == intents[b].members);
        assert(share_endpoint(next[a], next[b]) == share_endpoint(intents[a], intents[b]));
    }
    assert forall|a: int| 0 <= a < next.len() implies intent_sound(#[trigger] next[a]) by {
        assert(intent_sound(intents[a]));
        lemma_cover_ignores_phase(intents[a], next[a]);
    }
}

/// Which members an intent has to record does not depend on its phase.
proof fn lemma_cover_ignores_phase(a: IntentView, b: IntentView)
    requires
        a.expected == b.expected,
        a.desired == b.desired,
        a.members == b.members,
    ensures
        members_cover(a) == members_cover(b),
{
}

/// Removing an intent keeps the others consistent, and its operation is gone.
pub proof fn lemma_intent_removed(intents: Seq<IntentView>, i: int)
    requires
        intents_consistent(intents),
        0 <= i < intents.len(),
    ensures
        intents_consistent(intents.remove(i)),
        operation_index(intents.remove(i), intents[i].operation_id) is None,
{
    let next = intents.remove(i);
    assert forall|a: int, b: int| 0 <= a < b < next.len() implies MoveIntent::key_of(
        #[trigger] next[a],
    ) < MoveIntent::key_of(#[trigger] next[b]) && next[a].operation_id != next[b].operation_id
        && !share_endpoint(next[a], next[b]) by {
        let p = if a < i { a } else { a + 1 };
        let q = if b < i { b } else { b + 1 };
        assert(next[a] == intents[p] && next[b] == intents[q]);
        assert(MoveIntent::key_of(intents[p]) < MoveIntent::key_of(intents[q]));
        assert(intents[p].operation_id != intents[q].operation_id);
    }
    assert forall|a: int| 0 <= a < next.len() implies intent_sound(#[trigger] next[a])
        && next[a].operation_id != intents[i].operation_id by {
        let p = if a < i { a } else { a + 1 };
        assert(next[a] == intents[p]);
        assert(intent_sound(intents[p]));
        if p < i {
            assert(intents[p].operation_id != intents[i].operation_id);
        } else {
            assert(intents[i].operation_id != intents[p].operation_id);
        }
    }
    lemma_operation_absent(next, intents[i].operation_id);
}

/// One more write of a position: the generations stay canonical, that position's advances and
/// the others stay.
pub proof fn lemma_bumped(generations: Seq<AssignmentGeneration>, position: u32)
    requires
        canonical::<AssignmentGeneration>(generations),
    ensures
        canonical::<AssignmentGeneration>(bumped(generations, position)),
        first_with_key::<AssignmentGeneration>(bumped(generations, position), position as u64)
            == Some(
            AssignmentGeneration {
                position,
                generation: match first_with_key::<AssignmentGeneration>(
                    generations,
                    position as u64,
                ) {
                    Some(entry) => saturating_next(entry.generation),
                    None => 1,
                },
            },
        ),
        forall|x: AssignmentGeneration|
            x.position != position ==> (#[trigger] bumped(generations, position).contains(x)
                <==> generations.contains(x)),
        forall|x: AssignmentGeneration| #[trigger]
            bumped(generations, position).contains(x) && x.position == position ==> Some(x)
                == first_with_key::<AssignmentGeneration>(
                bumped(generations, position),
                position as u64,
            ),
{
    let next = bumped(generations, position);
    match key_index::<AssignmentGeneration>(generations, position as u64) {
        Some(i) => {
            assert(first_key_at::<AssignmentGeneration>(generations, position as u64, i));
            lemma_first_with_key::<AssignmentGeneration>(generations, position as u64, i);
            let entry = AssignmentGeneration {
                position,
                generation: saturating_next(generations[i].generation),
            };
            assert forall|a: int, b: int| 0 <= a < b < next.len() implies
                AssignmentGeneration::key_of(#[trigger] next[a]) < AssignmentGeneration::key_of(
                #[trigger] next[b],
            ) by {
                assert(AssignmentGeneration::key_of(generations[a])
                    < AssignmentGeneration::key_of(generations[b]));
            }
            assert(next[i] == entry);
            assert(next.contains(entry));
            lemma_lookup::<AssignmentGeneration>(next, entry);
            assert forall|x: AssignmentGeneration| x.position != position implies (
            #[trigger] next.contains(x) <==> generations.contains(x)) by {
                if next.contains(x) {
                    let m = choose|m: int| 0 <= m < next.len() && next[m] == x;
                    assert(generations[m] == x);
                }
                if generations.contains(x) {
                    let m = choose|m: int| 0 <= m < generations.len() && generations[m] == x;
                    assert(m != i);
                    assert(next[m] == x);
                }
            }
        },
        None => {
            let entry = AssignmentGeneration { position, generation: 1 };
            lemma_has_key::<AssignmentGeneration>(generations, position as u64);
            lemma_appended::<AssignmentGeneration>(generations, entry);
            assert(next.contains(entry));
            lemma_lookup::<AssignmentGeneration>(next, entry);
        },
    }
    assert forall|x: AssignmentGeneration| #[trigger]
        next.contains(x) && x.position == position implies Some(x)
        == first_with_key::<AssignmentGeneration>(next, position as u64) by {
        lemma_lookup::<AssignmentGeneration>(next, x);
    }
}

/// Other positions keep their generation.
pub proof fn lemma_bumped_others(generations: Seq<AssignmentGeneration>, position: u32, other: u32)
    requires
        canonical::<AssignmentGeneration>(generations),
        position != other,
    ensures
        first_with_key::<AssignmentGeneration>(bumped(generations, position), other as u64)
            == first_with_key::<AssignmentGeneration>(generations, other as u64),
{
    lemma_bumped(generations, position);
    lemma_same_lookup::<AssignmentGeneration>(
        bumped(generations, position),
        generations,
        other as u64,
    );
}

// ---- The canonical form --------------------------------------------------------------------

/// The default assignments fill exactly the gaps, each once.
proof fn lemma_filled(assignments: Seq<AssignmentView>, count: nat)
    requires
        canonical::<ShardAssignment>(assignments),
        count <= u32::MAX,
    ensures
        forall|x: AssignmentView| #[trigger]
            filled(assignments, count).contains(x) <==> (assignments.contains(x) || (
            x.position < count && x == default_assignment(x.position) && !has_key::<
                ShardAssignment,
            >(assignments, x.position as u64))),
        canonical::<ShardAssignment>(sorted_by_key::<ShardAssignment>(filled(assignments, count))),
        forall|x: AssignmentView| #[trigger]
            sorted_by_key::<ShardAssignment>(filled(assignments, count)).contains(x) <==> filled(
                assignments,
                count,
            ).contains(x),
    decreases count,
{
    let f = filled(assignments, count);
    if count == 0 {
        crate::keyed::lemma_sorted_canonical::<ShardAssignment>(assignments);
    } else {
        let position = (count - 1) as u32;
        let rest = filled(assignments, (count - 1) as nat);
        lemma_filled(assignments, (count - 1) as nat);
        let d = default_assignment(position);
        // A gap at this position is a gap of the assignments themselves.
        assert(has_key::<ShardAssignment>(rest, position as u64) <==> has_key::<ShardAssignment>(
            assignments,
            position as u64,
        )) by {
            if has_key::<ShardAssignment>(rest, position as u64) {
                let i = choose|i: int|
                    0 <= i < rest.len() && ShardAssignment::key_of(#[trigger] rest[i])
                        == position as u64;
                assert(rest.contains(rest[i]));
                assert(assignments.contains(rest[i]));
                let m = choose|m: int| 0 <= m < assignments.len() && assignments[m] == rest[i];
                assert(ShardAssignment::key_of(assignments[m]) == position as u64);
            }
            if has_key::<ShardAssignment>(assignments, position as u64) {
                let i = choose|i: int|
                    0 <= i < assignments.len() && ShardAssignment::key_of(
                        #[trigger] assignments[i],
                    ) == position as u64;
                assert(assignments.contains(assignments[i]));
                assert(rest.contains(assignments[i]));
                let m = choose|m: int| 0 <= m < rest.len() && rest[m] == assignments[i];
                assert(ShardAssignment::key_of(rest[m]) == position as u64);
            }
        }
        if has_key::<ShardAssignment>(rest, position as u64) {
            assert forall|x: AssignmentView| #[trigger] f.contains(x) <==> (assignments.contains(x)
                || (x.position < count && x == default_assignment(x.position) && !has_key::<
                ShardAssignment,
            >(assignments, x.position as u64))) by {
                assert(rest.contains(x) <==> f.contains(x));
            }
        } else {
            assert(f == rest.push(d));
            assert forall|x: AssignmentView| #[trigger] f.contains(x) <==> (rest.contains(x) || x
                == d) by {
                if f.contains(x) {
                    let i = choose|i: int| 0 <= i < f.len() && f[i] == x;
                    if i < rest.len() {
                        assert(rest[i] == x);
                    }
                }
                if rest.contains(x) {
                    let i = choose|i: int| 0 <= i < rest.len() && rest[i] == x;
                    assert(f[i] == x);
                }
                assert(f[rest.len() as int] == d);
            }
            let sorted = sorted_by_key::<ShardAssignment>(rest);
            assert(f.drop_last() =~= rest);
            assert(sorted_by_key::<ShardAssignment>(f) == place::<ShardAssignment>(sorted, d));
            assert(!has_key::<ShardAssignment>(sorted, position as u64)) by {
                if has_key::<ShardAssignment>(sorted, position as u64) {
                    let i = choose|i: int|
                        0 <= i < sorted.len() && ShardAssignment::key_of(#[trigger] sorted[i])
                            == position as u64;
                    assert(sorted.contains(sorted[i]));
                    assert(rest.contains(sorted[i]));
                    let m = choose|m: int| 0 <= m < rest.len() && rest[m] == sorted[i];
                    assert(ShardAssignment::key_of(rest[m]) == position as u64);
                }
            }
            crate::keyed::lemma_place_canonical::<ShardAssignment>(sorted, d);
            crate::keyed::lemma_place_contains::<ShardAssignment>(sorted, d);
            assert forall|x: AssignmentView| #[trigger] sorted_by_key::<ShardAssignment>(
                f,
            ).contains(x) <==> f.contains(x) by {
                assert(place::<ShardAssignment>(sorted, d).contains(x) <==> (sorted.contains(x) || x
                    == d));
                assert(sorted.contains(x) <==> rest.contains(x));
                assert(f.contains(x) <==> (rest.contains(x) || x == d));
            }
            assert forall|x: AssignmentView| #[trigger] f.contains(x) <==> (assignments.contains(x)
                || (x.position < count && x == default_assignment(x.position) && !has_key::<
                ShardAssignment,
            >(assignments, x.position as u64))) by {
                assert(f.contains(x) <==> (rest.contains(x) || x == d));
            }
        }
    }
}

/// Every transition keeps the document canonical.
pub proof fn lemma_changed_well_formed(state: ClusterStateView, change: ChangeView)
    requires
        well_formed(state),
    ensures
        well_formed(changed(state, change)),
{
    match change {
        ChangeView::AddNode(node) => {
            lemma_installed::<NodeDescriptor>(state.nodes, node);
        },
        ChangeView::RemoveNode(id) => {
            lemma_without_key::<NodeDescriptor>(state.nodes, id.0);
        },
        ChangeView::AssignShard(assignment) => {
            lemma_installed::<ShardAssignment>(state.assignments, assignment);
            lemma_bumped(state.moves.assignment_generations, assignment.position);
        },
        ChangeView::BumpModelVersion { .. } => {},
        ChangeView::SetShardCount { num_shards } => {
            lemma_keys_below::<ShardAssignment>(state.assignments, num_shards as u64);
            lemma_keys_below::<AssignmentGeneration>(
                state.moves.assignment_generations,
                num_shards as u64,
            );
            lemma_filled(
                keys_below::<ShardAssignment>(state.assignments, num_shards as u64),
                num_shards as nat,
            );
        },
        ChangeView::Move(command) => {
            lemma_move_well_formed(state, command);
        },
    }
}

/// An intent that may begin is sound.
proof fn lemma_begun_sound(state: ClusterStateView, intent: IntentView)
    requires
        begin_valid(state, intent),
    ensures
        intent_sound(intent),
{
    assert forall|i: int| 0 <= i < intent.members.len() implies (
    #[trigger] intent.members[i]).endpoint.len() > 0 && intent.members[i].endpoint == normalized(
        intent.members[i].endpoint,
    ) by {
        assert(identity_holds(state, intent.members[i]));
    }
}

/// Every move command keeps the document canonical and the active intents consistent: no two
/// share an operation, a position or an endpoint.
pub proof fn lemma_move_well_formed(state: ClusterStateView, command: CommandView)
    requires
        well_formed(state),
    ensures
        well_formed(move_state(state, command)),
{
    let intents = state.moves.intents;
    if move_outcome(state, command) == MoveCommandOutcome::Applied {
        match command {
            CommandView::Begin(intent) => {
                lemma_begun_sound(state, intent);
                lemma_intent_added(intents, intent);
            },
            _ => {
                let i = operation_index(intents, command.operation())->0;
                lemma_operation_found(intents, command.operation());
                assert(intent_sound(intents[i]));
                match command {
                    CommandView::MarkReady { evidence, .. } => {
                        lemma_intent_advanced(intents, i, PhaseView::Ready(evidence));
                    },
                    CommandView::Commit { .. } => {
                        lemma_intent_advanced(
                            intents,
                            i,
                            PhaseView::Committed(intents[i].phase->Ready_0),
                        );
                        lemma_installed::<ShardAssignment>(state.assignments, intents[i].desired);
                        lemma_bumped(
                            state.moves.assignment_generations,
                            intents[i].desired.position,
                        );
                    },
                    _ => {
                        lemma_intent_removed(intents, i);
                    },
                }
            },
        }
    }
}

/// The document of a single node is canonical.
pub proof fn lemma_genesis_well_formed(
    num_shards: u32,
    vnodes: u32,
    dict_fingerprint: u64,
    placement_generation: u64,
)
    ensures
        well_formed(genesis(num_shards, vnodes, dict_fingerprint, placement_generation)),
{
}

/// A commit and a change of the voter set keep the document canonical.
pub proof fn lemma_commit_well_formed(state: ClusterStateView, voters: Seq<NodeId>)
    requires
        well_formed(state),
    ensures
        well_formed(committed(state)),
        well_formed(committed(ClusterStateView { voters: node_set(voters), ..state })),
{
    lemma_node_set(voters);
}

/// The assignment of a position, or the default one.
pub open spec fn assignment_or_default(state: ClusterStateView, position: u32) -> AssignmentView {
    match state.assignment(position) {
        Some(assignment) => assignment,
        None => default_assignment(position),
    }
}

/// A resize leaves exactly one assignment for each position, in order: the one the position
/// had, or the default one.
pub proof fn lemma_resized(state: ClusterStateView, num_shards: u32)
    requires
        well_formed(state),
    ensures
        ({
            let next = changed(state, ChangeView::SetShardCount { num_shards });
            &&& next.num_shards == num_shards
            &&& next.assignments.len() == num_shards
            &&& forall|p: u32|
                p < num_shards ==> next.assignments[p as int] == #[trigger] assignment_or_default(
                    state,
                    p,
                )
            &&& forall|i: int|
                0 <= i < num_shards ==> (#[trigger] next.assignments[i]).position == i
        }),
{
    let next = changed(state, ChangeView::SetShardCount { num_shards }).assignments;
    let kept = keys_below::<ShardAssignment>(state.assignments, num_shards as u64);
    lemma_keys_below::<ShardAssignment>(state.assignments, num_shards as u64);
    lemma_filled(kept, num_shards as nat);
    assert forall|p: u32| p < num_shards implies next.contains(
        #[trigger] assignment_or_default(state, p),
    ) && assignment_or_default(state, p).position == p by {
        let x = assignment_or_default(state, p);
        lemma_has_key::<ShardAssignment>(state.assignments, p as u64);
        if state.assignment(p) is Some {
            lemma_found::<ShardAssignment>(state.assignments, p as u64);
            assert(kept.contains(x));
        } else {
            assert(!has_key::<ShardAssignment>(kept, p as u64)) by {
                if has_key::<ShardAssignment>(kept, p as u64) {
                    let i = choose|i: int|
                        0 <= i < kept.len() && ShardAssignment::key_of(#[trigger] kept[i])
                            == p as u64;
                    assert(kept.contains(kept[i]));
                    assert(state.assignments.contains(kept[i]));
                    let m = choose|m: int|
                        0 <= m < state.assignments.len() && state.assignments[m] == kept[i];
                    assert(ShardAssignment::key_of(state.assignments[m]) == p as u64);
                }
            }
        }
        assert(filled(kept, num_shards as nat).contains(x));
    }
    assert forall|k: u64| k < num_shards implies #[trigger] has_key::<ShardAssignment>(next, k) by {
        let x = assignment_or_default(state, k as u32);
        assert(next.contains(x));
        let m = choose|m: int| 0 <= m < next.len() && next[m] == x;
        assert(ShardAssignment::key_of(next[m]) == k);
    }
    assert forall|x: AssignmentView| #[trigger] next.contains(x) implies x.position
        < num_shards by {
        assert(filled(kept, num_shards as nat).contains(x));
    }
    lemma_dense(next, num_shards as nat);
    assert forall|p: u32| p < num_shards implies next[p as int] == #[trigger] assignment_or_default(
        state,
        p,
    ) by {
        let x = assignment_or_default(state, p);
        assert(next.contains(x));
        let m = choose|m: int| 0 <= m < next.len() && next[m] == x;
        assert(next[m].position == m);
    }
}

/// A canonical sequence whose keys are exactly the numbers below a bound lists them in order.
proof fn lemma_dense(s: Seq<AssignmentView>, count: nat)
    requires
        canonical::<ShardAssignment>(s),
        count <= u32::MAX,
        forall|k: u64| k < count ==> #[trigger] has_key::<ShardAssignment>(s, k),
        forall|x: AssignmentView| #[trigger] s.contains(x) ==> x.position < count,
    ensures
        s.len() == count,
        forall|i: int| 0 <= i < s.len() ==> (#[trigger] s[i]).position == i,
    decreases count,
{
    if count == 0 {
        if s.len() > 0 {
            assert(s.contains(s[0]));
        }
    } else {
        let top = (count - 1) as u32;
        assert(has_key::<ShardAssignment>(s, top as u64));
        let i = choose|i: int|
            0 <= i < s.len() && ShardAssignment::key_of(#[trigger] s[i]) == top as u64;
        assert(i == s.len() - 1) by {
            if i < s.len() - 1 {
                assert(ShardAssignment::key_of(s[i]) < ShardAssignment::key_of(s[s.len() - 1]));
                assert(s.contains(s[s.len() - 1]));
            }
        }
        let d = s.drop_last();
        assert forall|k: u64| k < count - 1 implies #[trigger] has_key::<ShardAssignment>(d, k) by {
            assert(has_key::<ShardAssignment>(s, k));
            let j = choose|j: int|
                0 <= j < s.len() && ShardAssignment::key_of(#[trigger] s[j]) == k;
            assert(d[j] == s[j]);
        }
        assert forall|x: AssignmentView| #[trigger] d.contains(x) implies x.position < count
            - 1 by {
            let j = choose|j: int| 0 <= j < d.len() && d[j] == x;
            assert(ShardAssignment::key_of(s[j]) < ShardAssignment::key_of(s[s.len() - 1]));
        }
        assert(canonical::<ShardAssignment>(d));
        lemma_dense(d, (count - 1) as nat);
        assert forall|j: int| 0 <= j < s.len() implies (#[trigger] s[j]).position == j by {
            if j < s.len() - 1 {
                assert(d[j] == s[j]);
                assert(d[j].position == j);
            }
        }
    }
}

// ---- Order independence --------------------------------------------------------------------

proof fn lemma_install_commutes<T: Keyed>(s: Seq<T::V>, a: T::V, b: T::V)
    requires
        canonical::<T>(s),
        T::key_of(a) != T::key_of(b),
    ensures
        ({
            let sa = sorted_by_key::<T>(without_key::<T>(s, T::key_of(a)).push(a));
            let sb = sorted_by_key::<T>(without_key::<T>(s, T::key_of(b)).push(b));
            sorted_by_key::<T>(without_key::<T>(sa, T::key_of(b)).push(b)) == sorted_by_key::<T>(
                without_key::<T>(sb, T::key_of(a)).push(a),
            )
        }),
{
    let sa = sorted_by_key::<T>(without_key::<T>(s, T::key_of(a)).push(a));
    let sb = sorted_by_key::<T>(without_key::<T>(s, T::key_of(b)).push(b));
    lemma_installed::<T>(s, a);
    lemma_installed::<T>(s, b);
    lemma_installed::<T>(sa, b);
    lemma_installed::<T>(sb, a);
    let ab = sorted_by_key::<T>(without_key::<T>(sa, T::key_of(b)).push(b));
    let ba = sorted_by_key::<T>(without_key::<T>(sb, T::key_of(a)).push(a));
    assert forall|x: T::V| ab.contains(x) <==> ba.contains(x) by {
        assert(ab.contains(x) <==> (x == b || (sa.contains(x) && T::key_of(x) != T::key_of(b))));
        assert(ba.contains(x) <==> (x == a || (sb.contains(x) && T::key_of(x) != T::key_of(a))));
        assert(sa.contains(x) <==> (x == a || (s.contains(x) && T::key_of(x) != T::key_of(a))));
        assert(sb.contains(x) <==> (x == b || (s.contains(x) && T::key_of(x) != T::key_of(b))));
    }
    lemma_canonical_unique::<T>(ab, ba);
}

proof fn lemma_bumps_commute(generations: Seq<AssignmentGeneration>, p: u32, q: u32)
    requires
        canonical::<AssignmentGeneration>(generations),
        p != q,
    ensures
        bumped(bumped(generations, p), q) == bumped(bumped(generations, q), p),
{
    let gp = bumped(generations, p);
    let gq = bumped(generations, q);
    lemma_bumped(generations, p);
    lemma_bumped(generations, q);
    lemma_bumped(gp, q);
    lemma_bumped(gq, p);
    lemma_bumped_others(generations, p, q);
    lemma_bumped_others(generations, q, p);
    lemma_bumped_others(gp, q, p);
    lemma_bumped_others(gq, p, q);
    let pq = bumped(gp, q);
    let qp = bumped(gq, p);
    assert forall|x: AssignmentGeneration| pq.contains(x) <==> qp.contains(x) by {
        if x.position != p && x.position != q {
            assert(pq.contains(x) <==> gp.contains(x));
            assert(qp.contains(x) <==> gq.contains(x));
            assert(gp.contains(x) <==> generations.contains(x));
            assert(gq.contains(x) <==> generations.contains(x));
        } else {
            if pq.contains(x) {
                lemma_lookup::<AssignmentGeneration>(pq, x);
                lemma_found::<AssignmentGeneration>(qp, x.position as u64);
            }
            if qp.contains(x) {
                lemma_lookup::<AssignmentGeneration>(qp, x);
                lemma_found::<AssignmentGeneration>(pq, x.position as u64);
            }
        }
    }
    lemma_canonical_unique::<AssignmentGeneration>(pq, qp);
}

/// Two changes that register or place different things.
pub open spec fn independent(a: ChangeView, b: ChangeView) -> bool {
    match (a, b) {
        (ChangeView::AddNode(x), ChangeView::AddNode(y)) => x.id != y.id,
        (ChangeView::AssignShard(x), ChangeView::AssignShard(y)) => x.position != y.position,
        (ChangeView::AddNode(_), ChangeView::AssignShard(_)) => true,
        (ChangeView::AssignShard(_), ChangeView::AddNode(_)) => true,
        _ => false,
    }
}

/// The nodes, the assignments and their generations stand in canonical form.
pub open spec fn canonical_document(state: ClusterStateView) -> bool {
    &&& canonical::<NodeDescriptor>(state.nodes)
    &&& canonical::<ShardAssignment>(state.assignments)
    &&& canonical::<AssignmentGeneration>(state.moves.assignment_generations)
}

/// Independent registrations and placements give the same document in either order.
pub proof fn lemma_order_independent(state: ClusterStateView, a: ChangeView, b: ChangeView)
    requires
        canonical_document(state),
        independent(a, b),
    ensures
        changed(changed(state, a), b) == changed(changed(state, b), a),
{
    match (a, b) {
        (ChangeView::AddNode(x), ChangeView::AddNode(y)) => {
            lemma_install_commutes::<NodeDescriptor>(state.nodes, x, y);
        },
        (ChangeView::AssignShard(x), ChangeView::AssignShard(y)) => {
            lemma_install_commutes::<ShardAssignment>(state.assignments, x, y);
            lemma_bumps_commute(state.moves.assignment_generations, x.position, y.position);
        },
        _ => {},
    }
}

/// The document after all changes of a list, one after the other.
pub open spec fn replayed(
    state: ClusterStateView,
    changes: Seq<ChangeView>,
) -> ClusterStateView
    decreases changes.len(),
{
    if changes.len() == 0 {
        state
    } else {
        replayed(changed(state, changes[0]), changes.drop_first())
    }
}

/// The committed document after all changes of a list were proposed and committed, one after the
/// other.
pub open spec fn proposed(state: ClusterStateView, changes: Seq<ChangeView>) -> ClusterStateView
    decreases changes.len(),
{
    if changes.len() == 0 {
        state
    } else {
        proposed(committed(changed(state, changes[0])), changes.drop_first())
    }
}

/// The changes of a list register nodes and place shards, each another one.
pub open spec fn all_independent(changes: Seq<ChangeView>) -> bool {
    &&& forall|i: int|
        0 <= i < changes.len() ==> (#[trigger] changes[i]) is AddNode || changes[i] is AssignShard
    &&& forall|i: int, j: int|
        0 <= i < j < changes.len() ==> independent(#[trigger] changes[i], #[trigger] changes[j])
}

/// Independent registrations and placements give the same document in whatever order a whole
/// list of them arrives: the same nodes, assignments and generations, and the same version where
/// each is committed on its own.
pub proof fn lemma_any_order(
    state: ClusterStateView,
    changes: Seq<ChangeView>,
    reordered: Seq<ChangeView>,
)
    requires
        canonical_document(state),
        all_independent(changes),
        reordered.to_multiset() == changes.to_multiset(),
    ensures
        replayed(state, reordered) == replayed(state, changes),
        proposed(state, reordered) == proposed(state, changes),
{
    broadcast use vstd::seq_lib::group_to_multiset_ensures;

    assert(changes.no_duplicates());
    changes.lemma_multiset_has_no_duplicates();
    reordered.lemma_multiset_has_no_duplicates_conv();
    assert forall|x: ChangeView| #[trigger] reordered.contains(x) implies changes.contains(x) by {
        assert(reordered.to_multiset().count(x) > 0);
    }
    assert forall|i: int| 0 <= i < reordered.len() implies (#[trigger] reordered[i]) is AddNode
        || reordered[i] is AssignShard by {
        assert(reordered.contains(reordered[i]));
    }
    assert forall|i: int, j: int| 0 <= i < j < reordered.len() implies independent(
        #[trigger] reordered[i],
        #[trigger] reordered[j],
    ) by {
        assert(reordered.contains(reordered[i]));
        assert(reordered.contains(reordered[j]));
        let p = choose|p: int| 0 <= p < changes.len() && changes[p] == reordered[i];
        let q = choose|q: int| 0 <= q < changes.len() && changes[q] == reordered[j];
        assert(p != q);
        if p < q {
            assert(independent(changes[p], changes[q]));
        } else {
            assert(independent(changes[q], changes[p]));
        }
    }
    lemma_same_replay(state, changes, reordered);
    vstd::seq_lib::to_multiset_len(changes);
    vstd::seq_lib::to_multiset_len(reordered);
    lemma_commits_count(state, changes);
    lemma_commits_count(state, reordered);
}

/// The version after a number of commits.
spec fn version_after(epoch: u64, n: nat) -> u64
    decreases n,
{
    if n == 0 {
        epoch
    } else {
        version_after((epoch + 1) as u64, (n - 1) as nat)
    }
}

/// Committing each change of a list moves the version on, and does nothing else.
proof fn lemma_commits_count(state: ClusterStateView, changes: Seq<ChangeView>)
    requires
        all_independent(changes),
    ensures
        proposed(state, changes) == (ClusterStateView {
            epoch: version_after(state.epoch, changes.len()),
            ..replayed(state, changes)
        }),
        replayed(state, changes).epoch == state.epoch,
    decreases changes.len(),
{
    if changes.len() > 0 {
        let rest = changes.drop_first();
        let next = changed(state, changes[0]);
        assert(changes.remove(0) =~= rest);
        lemma_rest_independent(changes, 0);
        lemma_commits_count(committed(next), rest);
        lemma_version_irrelevant(next, committed(next).epoch, rest);
        lemma_commits_count(next, rest);
    }
}

proof fn lemma_version_irrelevant(state: ClusterStateView, epoch: u64, changes: Seq<ChangeView>)
    requires
        all_independent(changes),
    ensures
        replayed(ClusterStateView { epoch, ..state }, changes) == (ClusterStateView {
            epoch,
            ..replayed(state, changes)
        }),
    decreases changes.len(),
{
    if changes.len() > 0 {
        let other = ClusterStateView { epoch, ..state };
        assert(changes.remove(0) =~= changes.drop_first());
        lemma_rest_independent(changes, 0);
        lemma_version_irrelevant(changed(state, changes[0]), epoch, changes.drop_first());
        assert(changes[0] is AddNode || changes[0] is AssignShard);
        assert(changed(other, changes[0]) == (ClusterStateView {
            epoch,
            ..changed(state, changes[0])
        }));
    }
}

proof fn lemma_same_replay(
    state: ClusterStateView,
    changes: Seq<ChangeView>,
    reordered: Seq<ChangeView>,
)
    requires
        canonical_document(state),
        all_independent(reordered),
        reordered.to_multiset() == changes.to_multiset(),
    ensures
        replayed(state, reordered) == replayed(state, changes),
    decreases changes.len(),
{
    broadcast use vstd::seq_lib::group_to_multiset_ensures;

    vstd::seq_lib::to_multiset_len(changes);
    vstd::seq_lib::to_multiset_len(reordered);
    if changes.len() > 0 {
        let first = changes[0];
        assert(changes.contains(first));
        assert(reordered.to_multiset().count(first) > 0);
        assert(reordered.contains(first));
        let i = choose|i: int| 0 <= i < reordered.len() && reordered[i] == first;
        let rest = reordered.remove(i);
        lemma_moved_to_front(state, reordered, i);
        vstd::seq_lib::to_multiset_remove(changes, 0);
        vstd::seq_lib::to_multiset_remove(reordered, i);
        assert(changes.remove(0) =~= changes.drop_first());
        lemma_changed_canonical(state, first);
        lemma_rest_independent(reordered, i);
        lemma_same_replay(changed(state, first), changes.drop_first(), rest);
    }
}

proof fn lemma_rest_independent(changes: Seq<ChangeView>, i: int)
    requires
        all_independent(changes),
        0 <= i < changes.len(),
    ensures
        all_independent(changes.remove(i)),
{
    let rest = changes.remove(i);
    assert forall|j: int| 0 <= j < rest.len() implies #[trigger] rest[j] == if j < i {
        changes[j]
    } else {
        changes[j + 1]
    } by {}
}

/// A change of an independent list may as well come first.
proof fn lemma_moved_to_front(state: ClusterStateView, changes: Seq<ChangeView>, i: int)
    requires
        canonical_document(state),
        all_independent(changes),
        0 <= i < changes.len(),
    ensures
        replayed(state, changes) == replayed(changed(state, changes[i]), changes.remove(i)),
    decreases i,
{
    let rest = changes.remove(i);
    if i == 0 {
        assert(rest =~= changes.drop_first());
    } else {
        let tail = changes.drop_first();
        assert(changes.remove(0) =~= tail);
        lemma_rest_independent(changes, 0);
        lemma_changed_canonical(state, changes[0]);
        lemma_moved_to_front(changed(state, changes[0]), tail, i - 1);
        assert(independent(changes[0], changes[i]));
        lemma_order_independent(state, changes[0], changes[i]);
        assert(rest[0] == changes[0]);
        assert(rest.drop_first() =~= tail.remove(i - 1));
    }
}

proof fn lemma_changed_canonical(state: ClusterStateView, change: ChangeView)
    requires
        canonical_document(state),
        change is AddNode || change is AssignShard,
    ensures
        canonical_document(changed(state, change)),
{
    match change {
        ChangeView::AddNode(node) => {
            lemma_installed::<NodeDescriptor>(state.nodes, node);
        },
        ChangeView::AssignShard(assignment) => {
            lemma_installed::<ShardAssignment>(state.assignments, assignment);
            lemma_bumped(state.moves.assignment_generations, assignment.position);
        },
        _ => {},
    }
}

/// Removing a node a second time changes nothing, and adding a node a second time changes
/// nothing.
pub proof fn lemma_registration_idempotent(state: ClusterStateView, node: NodeView)
    requires
        well_formed(state),
    ensures
        ({
            let removed = changed(state, ChangeView::RemoveNode(node.id));
            &&& changed(removed, ChangeView::RemoveNode(node.id)) == removed
            &&& first_with_key::<NodeDescriptor>(removed.nodes, node.id.0) is None
        }),
        ({
            let added = changed(state, ChangeView::AddNode(node));
            &&& changed(added, ChangeView::AddNode(node)) == added
            &&& first_with_key::<NodeDescriptor>(added.nodes, node.id.0) == Some(node)
        }),
{
    let k = node.id.0;
    let removed = without_key::<NodeDescriptor>(state.nodes, k);
    lemma_without_key::<NodeDescriptor>(state.nodes, k);
    lemma_without_key::<NodeDescriptor>(removed, k);
    let twice = without_key::<NodeDescriptor>(removed, k);
    assert forall|x: NodeView| twice.contains(x) <==> removed.contains(x) by {}
    lemma_canonical_unique::<NodeDescriptor>(twice, removed);
    lemma_first_with_key_none::<NodeDescriptor>(removed, k);
    let added = sorted_by_key::<NodeDescriptor>(removed.push(node));
    lemma_installed::<NodeDescriptor>(state.nodes, node);
    lemma_installed::<NodeDescriptor>(added, node);
    let again = sorted_by_key::<NodeDescriptor>(
        without_key::<NodeDescriptor>(added, k).push(node),
    );
    assert forall|x: NodeView| again.contains(x) <==> added.contains(x) by {
        assert(again.contains(x) <==> (x == node || (added.contains(x) && NodeDescriptor::key_of(x)
            != k)));
        assert(added.contains(x) <==> (x == node || (state.nodes.contains(x)
            && NodeDescriptor::key_of(x) != k)));
    }
    lemma_canonical_unique::<NodeDescriptor>(again, added);
    assert(added.contains(node));
    lemma_lookup::<NodeDescriptor>(added, node);
}

// ---- The move protocol ---------------------------------------------------------------------

/// Installing an assignment is seen at its position, and at no other.
pub proof fn lemma_installed_assignment(state: ClusterStateView, assignment: AssignmentView)
    requires
        well_formed(state),
    ensures
        with_assignment(state, assignment).assignment(assignment.position) == Some(assignment),
        with_assignment(state, assignment).moves.generation(assignment.position)
            == saturating_next(state.moves.generation(assignment.position)),
        forall|p: u32|
            p != assignment.position ==> #[trigger] with_assignment(state, assignment).assignment(p)
                == state.assignment(p),
        forall|p: u32|
            p != assignment.position ==> #[trigger] with_assignment(
                state,
                assignment,
            ).moves.generation(p) == state.moves.generation(p),
{
    let next = with_assignment(state, assignment);
    lemma_installed::<ShardAssignment>(state.assignments, assignment);
    assert(next.assignments.contains(assignment));
    lemma_lookup::<ShardAssignment>(next.assignments, assignment);
    lemma_bumped(state.moves.assignment_generations, assignment.position);
    assert forall|p: u32| p != assignment.position implies #[trigger] next.assignment(p)
        == state.assignment(p) by {
        assert forall|x: AssignmentView| ShardAssignment::key_of(x) == p as u64 implies (
        #[trigger] next.assignments.contains(x) <==> state.assignments.contains(x)) by {}
        lemma_same_lookup::<ShardAssignment>(next.assignments, state.assignments, p as u64);
    }
    assert forall|p: u32| p != assignment.position implies #[trigger] next.moves.generation(p)
        == state.moves.generation(p) by {
        lemma_bumped_others(state.moves.assignment_generations, assignment.position, p);
    }
}

/// What identities hold depends on the registered nodes alone.
proof fn lemma_identities_local(a: ClusterStateView, b: ClusterStateView, intent: IntentView)
    requires
        a.nodes == b.nodes,
    ensures
        identities_hold(a, intent) == identities_hold(b, intent),
{
    assert forall|m: MemberView| identity_holds(a, m) == identity_holds(b, m) by {}
}

/// A command that was applied is answered as already applied when it comes again, and changes
/// nothing more.
pub proof fn lemma_applied_once(state: ClusterStateView, command: CommandView)
    requires
        well_formed(state),
        move_outcome(state, command) == MoveCommandOutcome::Applied,
    ensures
        move_outcome(move_state(state, command), command) == MoveCommandOutcome::AlreadyApplied,
        move_state(move_state(state, command), command) == move_state(state, command),
{
    let next = move_state(state, command);
    let intents = state.moves.intents;
    lemma_move_well_formed(state, command);
    match command {
        CommandView::Begin(intent) => {
            lemma_begun_sound(state, intent);
            lemma_intent_added(intents, intent);
            let added = next.moves.intents;
            assert(added.contains(intent));
            let i = choose|i: int| 0 <= i < added.len() && added[i] == intent;
            lemma_operation_at(added, i);
            lemma_identities_local(state, next, intent);
        },
        _ => {
            let operation = command.operation();
            let i = operation_index(intents, operation)->0;
            lemma_operation_found(intents, operation);
            match command {
                CommandView::MarkReady { evidence, .. } => {
                    assert(next.moves.intents[i].operation_id == operation);
                    lemma_operation_at(next.moves.intents, i);
                    assert(evidence_fits(next.moves.intents[i], evidence) == evidence_fits(
                        intents[i],
                        evidence,
                    ));
                },
                CommandView::Commit { .. } => {
                    assert(next.moves.intents[i].operation_id == operation);
                    lemma_operation_at(next.moves.intents, i);
                    lemma_installed_assignment(format_fenced(state), intents[i].desired);
                    assert(next.assignment(intents[i].position) == Some(intents[i].desired));
                },
                _ => {
                    lemma_intent_removed(intents, i);
                },
            }
        },
    }
    assert(format_fenced(next) == next);
}

/// A command that is not applied leaves everything but the format mark.
pub proof fn lemma_not_applied_changes_nothing(state: ClusterStateView, command: CommandView)
    requires
        move_outcome(state, command) != MoveCommandOutcome::Applied,
    ensures
        move_state(state, command) == format_fenced(state),
{
}

/// A begin may be repeated in whatever phase its operation has reached meanwhile.
pub proof fn lemma_begin_repeats(
    state: ClusterStateView,
    intent: IntentView,
    later: CommandView,
)
    requires
        well_formed(state),
        begin_outcome(state, intent) == MoveCommandOutcome::AlreadyApplied,
        later is MarkReady || later is Commit,
    ensures
        begin_outcome(move_state(state, later), intent) == MoveCommandOutcome::AlreadyApplied,
{
    let next = move_state(state, later);
    let intents = state.moves.intents;
    lemma_move_well_formed(state, later);
    lemma_identities_local(state, next, intent);
    lemma_operation_found(intents, intent.operation_id);
    let i = operation_index(intents, intent.operation_id)->0;
    if move_outcome(state, later) == MoveCommandOutcome::Applied {
        lemma_operation_found(intents, later.operation());
    }
    assert(next.moves.intents[i].same_transition(intents[i]));
    lemma_operation_at(next.moves.intents, i);
}

/// Only an applied commit changes the assignments. It installs the complete desired
/// assignment of its intent, advances that position's generation, marks the intent, and leaves
/// every other position.
pub proof fn lemma_only_commit_assigns(state: ClusterStateView, command: CommandView)
    requires
        well_formed(state),
    ensures
        !(command is Commit && move_outcome(state, command) == MoveCommandOutcome::Applied) ==> {
            &&& move_state(state, command).assignments == state.assignments
            &&& move_state(state, command).moves.assignment_generations
                == state.moves.assignment_generations
        },
        command is Commit && move_outcome(state, command) == MoveCommandOutcome::Applied ==> {
            let i = operation_index(state.moves.intents, command.operation())->0;
            let intent = state.moves.intents[i];
            let next = move_state(state, command);
            &&& intent.phase is Ready
            &&& state.assignment(intent.position) == Some(intent.expected)
            &&& next.assignment(intent.position) == Some(intent.desired)
            &&& next.moves.generation(intent.position) == saturating_next(
                state.moves.generation(intent.position),
            )
            &&& next.moves.intents[i] == intent.in_phase(
                PhaseView::Committed(intent.phase->Ready_0),
            )
            &&& forall|p: u32|
                p != intent.position ==> #[trigger] next.assignment(p) == state.assignment(p)
        },
{
    if command is Commit && move_outcome(state, command) == MoveCommandOutcome::Applied {
        let i = operation_index(state.moves.intents, command.operation())->0;
        lemma_operation_found(state.moves.intents, command.operation());
        let intent = state.moves.intents[i];
        let fenced = format_fenced(state);
        lemma_installed_assignment(fenced, intent.desired);
        let next = move_state(state, command);
        let installed = with_assignment(fenced, intent.desired);
        assert(next.assignments == installed.assignments);
        assert(next.moves.generation(intent.position) == installed.moves.generation(
            intent.position,
        ));
        assert(state.moves.generation(intent.position) == fenced.moves.generation(
            intent.position,
        ));
        assert forall|p: u32| p != intent.position implies #[trigger] next.assignment(p)
            == state.assignment(p) by {
            assert(installed.assignment(p) == fenced.assignment(p));
        }
    }
}

/// Of two begins that race for one position, or for one endpoint, one wins: after the first is
/// applied the other is a conflict.
pub proof fn lemma_one_winner(state: ClusterStateView, first: IntentView, second: IntentView)
    requires
        well_formed(state),
        begin_outcome(state, first) == MoveCommandOutcome::Applied,
        begin_outcome(state, second) == MoveCommandOutcome::Applied,
        first.operation_id != second.operation_id,
        first.position == second.position || share_endpoint(first, second),
    ensures
        begin_outcome(move_state(state, CommandView::Begin(first)), second)
            == MoveCommandOutcome::Conflict,
        begin_outcome(move_state(state, CommandView::Begin(second)), first)
            == MoveCommandOutcome::Conflict,
{
    lemma_second_loses(state, first, second);
    lemma_share_symmetric(first, second);
    lemma_second_loses(state, second, first);
}

proof fn lemma_second_loses(state: ClusterStateView, first: IntentView, second: IntentView)
    requires
        well_formed(state),
        begin_outcome(state, first) == MoveCommandOutcome::Applied,
        begin_outcome(state, second) == MoveCommandOutcome::Applied,
        first.operation_id != second.operation_id,
        first.position == second.position || share_endpoint(first, second),
    ensures
        begin_outcome(move_state(state, CommandView::Begin(first)), second)
            == MoveCommandOutcome::Conflict,
{
    let next = move_state(state, CommandView::Begin(first));
    let intents = state.moves.intents;
    lemma_begun_sound(state, first);
    lemma_intent_added(intents, first);
    let added = next.moves.intents;
    lemma_identities_local(state, next, second);
    assert(added.contains(first));
    let i = choose|i: int| 0 <= i < added.len() && added[i] == first;
    lemma_operation_absent(intents, second.operation_id);
    assert forall|j: int| 0 <= j < added.len() implies (#[trigger] added[j]).operation_id
        != second.operation_id by {
        assert(added.contains(added[j]));
        if added[j] != first {
            let m = choose|m: int| 0 <= m < intents.len() && intents[m] == added[j];
            assert(intents[m].operation_id != second.operation_id);
        }
    }
    lemma_operation_absent(added, second.operation_id);
    if first.position == second.position {
        assert(MoveIntent::key_of(added[i]) == second.position as u64);
        assert(has_key::<MoveIntent>(added, second.position as u64));
    } else {
        assert(share_endpoint(added[i], second));
        assert(endpoint_reserved(added, second));
    }
}

/// An ordinary assignment write of a position invalidates every move planned before it, even
/// where it writes the assignment that was there.
pub proof fn lemma_assignment_invalidates(
    state: ClusterStateView,
    intent: IntentView,
    assignment: AssignmentView,
)
    requires
        well_formed(state),
        predicate_holds(state, intent),
        assignment.position == intent.position,
        state.moves.generation(intent.position) < u64::MAX,
    ensures
        !predicate_holds(changed(state, ChangeView::AssignShard(assignment)), intent),
{
    lemma_installed_assignment(state, assignment);
}

/// A model change or a resize invalidates every move planned before it.
pub proof fn lemma_placement_invalidates(
    state: ClusterStateView,
    intent: IntentView,
    change: ChangeView,
)
    requires
        predicate_holds(state, intent),
        change is BumpModelVersion || change is SetShardCount,
        state.placement_generation < u64::MAX,
    ensures
        !predicate_holds(changed(state, change), intent),
{
}

/// Where the predicate of an operation no longer holds, it can neither begin nor become ready
/// nor be committed.
pub proof fn lemma_invalid_predicate_blocks(state: ClusterStateView, command: CommandView)
    requires
        ({
            let intents = state.moves.intents;
            let found = operation_index(intents, command.operation());
            match command {
                CommandView::Begin(intent) => !predicate_holds(state, intent),
                _ => found is Some && !predicate_holds(state, intents[found->0]),
            }
        }),
        !(command is Abort || command is Finish),
    ensures
        move_outcome(state, command) != MoveCommandOutcome::Applied,
        move_state(state, command) == format_fenced(state),
{
}

/// Where a recorded member was registered at another endpoint, or deregistered, the intent
/// stays as it is: no command about its operation is applied.
pub proof fn lemma_identity_drift_blocks(state: ClusterStateView, command: CommandView)
    requires
        operation_index(state.moves.intents, command.operation()) is Some,
        !identities_hold(
            state,
            state.moves.intents[operation_index(state.moves.intents, command.operation())->0],
        ),
    ensures
        move_outcome(state, command) != MoveCommandOutcome::Applied,
        move_state(state, command).moves.intents == state.moves.intents,
{
}

/// An intent that is ready or committed, or that began with the desired side serving, is never
/// aborted.
pub proof fn lemma_no_abort(state: ClusterStateView, operation_id: u64)
    requires
        operation_index(state.moves.intents, operation_id) is Some,
        ({
            let intent = state.moves.intents[operation_index(
                state.moves.intents,
                operation_id,
            )->0];
            !(intent.phase is Preparing) || intent.initial_authority is Desired
        }),
    ensures
        move_outcome(state, CommandView::Abort { operation_id }) == MoveCommandOutcome::Conflict,
        move_state(state, CommandView::Abort { operation_id }).moves.intents
            == state.moves.intents,
{
}

/// Every move command, however it ends, marks the document with the current move format.
pub proof fn lemma_format_marked(state: ClusterStateView, command: CommandView)
    ensures
        move_state(state, command).moves.format_version == MOVE_CONTROL_FORMAT_CURRENT,
{
}

/// How far a phase is: preparing, ready, committed.
pub open spec fn phase_rank(phase: PhaseView) -> nat {
    match phase {
        PhaseView::Preparing => 0,
        PhaseView::Ready(_) => 1,
        PhaseView::Committed(_) => 2,
    }
}

/// The document records the transition of an intent, and it has come at least that far.
pub open spec fn reached(state: ClusterStateView, intent: IntentView, rank: nat) -> bool {
    match operation_index(state.moves.intents, intent.operation_id) {
        Some(i) => {
            &&& state.moves.intents[i].same_transition(intent)
            &&& phase_rank(state.moves.intents[i].phase) >= rank
        },
        None => false,
    }
}

/// Commands about other operations leave a recorded transition, how far it has come, and the
/// assignment of its position.
pub proof fn lemma_others_keep(
    state: ClusterStateView,
    intent: IntentView,
    rank: nat,
    command: CommandView,
)
    requires
        well_formed(state),
        reached(state, intent, rank),
        command.operation() != intent.operation_id,
    ensures
        reached(move_state(state, command), intent, rank),
        move_state(state, command).assignment(intent.position) == state.assignment(
            intent.position,
        ),
{
    let intents = state.moves.intents;
    let next = move_state(state, command);
    let after = next.moves.intents;
    lemma_operation_found(intents, intent.operation_id);
    let i = operation_index(intents, intent.operation_id)->0;
    let mine = intents[i];
    assert(mine.position == mine.in_phase(PhaseView::Preparing).position);
    assert(intent.position == intent.in_phase(PhaseView::Preparing).position);
    lemma_move_well_formed(state, command);
    lemma_only_commit_assigns(state, command);
    if move_outcome(state, command) is Applied {
        match command {
            CommandView::Begin(other) => {
                lemma_begun_sound(state, other);
                lemma_intent_added(intents, other);
                assert(intents.contains(mine));
                assert(after.contains(mine));
                let k = choose|k: int| 0 <= k < after.len() && after[k] == mine;
                lemma_operation_at(after, k);
            },
            CommandView::MarkReady { .. } => {
                lemma_operation_found(intents, command.operation());
                assert(after[i] == mine);
                lemma_operation_at(after, i);
            },
            CommandView::Commit { .. } => {
                lemma_operation_found(intents, command.operation());
                let j = operation_index(intents, command.operation())->0;
                assert(after[i] == mine);
                lemma_operation_at(after, i);
                if i < j {
                    assert(MoveIntent::key_of(intents[i]) < MoveIntent::key_of(intents[j]));
                } else {
                    assert(MoveIntent::key_of(intents[j]) < MoveIntent::key_of(intents[i]));
                }
            },
            _ => {
                lemma_operation_found(intents, command.operation());
                let j = operation_index(intents, command.operation())->0;
                let k = if i < j { i } else { i - 1 };
                assert(after[k] == mine);
                lemma_operation_at(after, k);
            },
        }
    }
}

/// A command in force has brought its operation at least as far as it says: a begin has
/// recorded its transition, evidence has made it ready, and a commit has installed the desired
/// assignment.
pub proof fn lemma_in_force_reached(
    state: ClusterStateView,
    intent: IntentView,
    command: CommandView,
)
    requires
        well_formed(state),
        in_force(move_outcome(state, command)),
        command.operation() == intent.operation_id,
        command is Begin ==> command == CommandView::Begin(intent),
        command is MarkReady || command is Commit ==> reached(state, intent, 0),
    ensures
        command is Begin ==> reached(move_state(state, command), intent, 0),
        command is MarkReady ==> reached(move_state(state, command), intent, 1),
        command is Commit ==> reached(move_state(state, command), intent, 2) && move_state(
            state,
            command,
        ).assignment(intent.position) == Some(intent.desired),
{
    let intents = state.moves.intents;
    let next = move_state(state, command);
    let after = next.moves.intents;
    lemma_move_well_formed(state, command);
    lemma_only_commit_assigns(state, command);
    let applied = move_outcome(state, command) is Applied;
    if command is Begin && applied {
        lemma_begun_sound(state, intent);
        lemma_intent_added(intents, intent);
        assert(after.contains(intent));
        let k = choose|k: int| 0 <= k < after.len() && after[k] == intent;
        lemma_operation_at(after, k);
    } else if command is MarkReady || command is Commit {
        lemma_operation_found(intents, intent.operation_id);
        let i = operation_index(intents, intent.operation_id)->0;
        let mine = intents[i];
        assert(mine.position == mine.in_phase(PhaseView::Preparing).position);
        assert(mine.desired == mine.in_phase(PhaseView::Preparing).desired);
        assert(intent.desired == intent.in_phase(PhaseView::Preparing).desired);
        assert(intent.position == intent.in_phase(PhaseView::Preparing).position);
        if applied {
            assert(after[i].same_transition(mine));
            lemma_operation_at(after, i);
        }
    }
}

/// What a command decides and does, but for the epoch, does not depend on the epoch.
proof fn lemma_epoch_irrelevant(state: ClusterStateView, command: CommandView)
    ensures
        move_outcome(committed(state), command) == move_outcome(state, command),
        move_state(committed(state), command) == committed(move_state(state, command)),
{
    let next = committed(state);
    assert forall|m: MemberView| identity_holds(next, m) == identity_holds(state, m) by {}
    assert forall|i: IntentView| #[trigger] identities_hold(next, i) == identities_hold(
        state,
        i,
    ) by {}
    assert forall|i: IntentView| #[trigger] predicate_holds(next, i) == predicate_holds(
        state,
        i,
    ) by {}
}

/// The command is in force: it was applied now or before.
pub open spec fn in_force(outcome: MoveCommandOutcome) -> bool {
    outcome is Applied || outcome is AlreadyApplied
}

/// A command whose answer was lost may be proposed again: whether or not the first proposal was
/// committed, the second is in force exactly where the first would have been, and leaves the
/// same document but for the epoch.
pub proof fn lemma_retry_safe(state: ClusterStateView, command: CommandView)
    requires
        well_formed(state),
    ensures
        ({
            let once = committed(move_state(state, command));
            &&& in_force(move_outcome(once, command)) == in_force(move_outcome(state, command))
            &&& move_state(once, command) == once
        }),
{
    let next = move_state(state, command);
    lemma_epoch_irrelevant(next, command);
    if move_outcome(state, command) is Applied {
        lemma_applied_once(state, command);
    } else {
        lemma_format_irrelevant(state, command);
    }
}

/// A move that began is taken to its end by its evidence, its commit and its finish, and leaves
/// nothing behind but its assignment, the position's next generation and the format mark.
pub proof fn lemma_move_completes(
    state: ClusterStateView,
    intent: IntentView,
    evidence: EvidenceView,
)
    requires
        well_formed(state),
        begin_outcome(state, intent) == MoveCommandOutcome::Applied,
        evidence_fits(intent, evidence),
    ensures
        ({
            let operation_id = intent.operation_id;
            let begun = move_state(state, CommandView::Begin(intent));
            let ready = CommandView::MarkReady { operation_id, evidence };
            let readied = move_state(begun, ready);
            let installed = move_state(readied, CommandView::Commit { operation_id });
            let finished = move_state(installed, CommandView::Finish { operation_id });
            &&& move_outcome(begun, ready) is Applied
            &&& move_outcome(readied, CommandView::Commit { operation_id }) is Applied
            &&& move_outcome(installed, CommandView::Finish { operation_id }) is Applied
            &&& finished == with_assignment(format_fenced(state), intent.desired)
        }),
{
    let operation_id = intent.operation_id;
    let commit = CommandView::Commit { operation_id };
    let finish = CommandView::Finish { operation_id };
    let ready = CommandView::MarkReady { operation_id, evidence };
    let intents = state.moves.intents;
    lemma_begun_sound(state, intent);
    lemma_intent_added(intents, intent);
    let begun = move_state(state, CommandView::Begin(intent));
    let added = begun.moves.intents;
    assert(added.contains(intent));
    let i = choose|i: int| 0 <= i < added.len() && added[i] == intent;
    lemma_operation_at(added, i);
    lemma_identities_local(state, begun, intent);
    assert(predicate_holds(begun, intent));

    let readied = move_state(begun, ready);
    let at_ready = intent.in_phase(PhaseView::Ready(evidence));
    lemma_move_well_formed(state, CommandView::Begin(intent));
    lemma_move_well_formed(begun, ready);
    assert(readied.moves.intents == added.update(i, at_ready));
    assert(readied.moves.intents[i] == at_ready);
    lemma_operation_at(readied.moves.intents, i);
    lemma_identities_same_members(begun, readied, intent, at_ready);
    assert(predicate_holds(readied, at_ready));

    let installed = move_state(readied, commit);
    let at_commit = intent.in_phase(PhaseView::Committed(evidence));
    lemma_move_well_formed(readied, commit);
    lemma_only_commit_assigns(readied, commit);
    assert(installed.moves.intents == readied.moves.intents.update(i, at_commit));
    assert(installed.moves.intents[i] == at_commit);
    lemma_operation_at(installed.moves.intents, i);
    lemma_identities_same_members(readied, installed, at_ready, at_commit);

    let finished = move_state(installed, finish);
    assert(installed.moves.intents.remove(i) =~= added.remove(i));
    lemma_intent_removed(added, i);
    lemma_added_removed(intents, added, intent, i);
    assert(finished.moves.intents == intents);
    assert(finished =~= with_assignment(format_fenced(state), intent.desired));
}

/// What identities hold depends on the registered nodes and on what the intent records of its
/// members.
proof fn lemma_identities_same_members(
    a: ClusterStateView,
    b: ClusterStateView,
    x: IntentView,
    y: IntentView,
)
    requires
        a.nodes == b.nodes,
        x.expected == y.expected,
        x.desired == y.desired,
        x.members == y.members,
    ensures
        identities_hold(a, x) == identities_hold(b, y),
{
    assert forall|m: MemberView| identity_holds(a, m) == identity_holds(b, m) by {}
    lemma_cover_ignores_phase(x, y);
}

/// Removing the intent that was added leaves the others.
proof fn lemma_added_removed(
    intents: Seq<IntentView>,
    added: Seq<IntentView>,
    intent: IntentView,
    i: int,
)
    requires
        canonical::<MoveIntent>(intents),
        canonical::<MoveIntent>(added),
        !has_key::<MoveIntent>(intents, intent.position as u64),
        forall|x: IntentView| #[trigger]
            added.contains(x) <==> (intents.contains(x) || x == intent),
        0 <= i < added.len(),
        added[i] == intent,
    ensures
        added.remove(i) == intents,
{
    let left = added.remove(i);
    assert forall|a: int, b: int| 0 <= a < b < left.len() implies MoveIntent::key_of(
        #[trigger] left[a],
    ) < MoveIntent::key_of(#[trigger] left[b]) by {
        let p = if a < i { a } else { a + 1 };
        let q = if b < i { b } else { b + 1 };
        assert(MoveIntent::key_of(added[p]) < MoveIntent::key_of(added[q]));
    }
    assert forall|x: IntentView| left.contains(x) <==> intents.contains(x) by {
        if left.contains(x) {
            let a = choose|a: int| 0 <= a < left.len() && left[a] == x;
            let p = if a < i { a } else { a + 1 };
            assert(added[p] == x);
            assert(added.contains(x));
            if p < i {
                assert(MoveIntent::key_of(added[p]) < MoveIntent::key_of(added[i]));
            } else {
                assert(MoveIntent::key_of(added[i]) < MoveIntent::key_of(added[p]));
            }
        }
        if intents.contains(x) {
            assert(added.contains(x));
            let p = choose|p: int| 0 <= p < added.len() && added[p] == x;
            let m = choose|m: int| 0 <= m < intents.len() && intents[m] == x;
            assert(MoveIntent::key_of(intents[m]) != intent.position as u64);
            assert(p != i);
            let a = if p < i { p } else { p - 1 };
            assert(left[a] == x);
        }
    }
    lemma_canonical_unique::<MoveIntent>(left, intents);
}

} // verus!
