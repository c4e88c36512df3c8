//! What a reassignment guarantees: that declining means nothing was touched, and that its
//! durable and physical steps come in one order.

use vstd::prelude::*;

use crate::control_laws::{
    in_force, lemma_in_force_reached, lemma_others_keep, reached, well_formed,
};
use crate::document::{
    ClusterStateView, CommandView, EvidenceView, IntentView, MoveMemberEvidence, NodeId,
};
use crate::error::{ConfigFault, ControlFault, ShardError};
use crate::keyed::has_key;
use crate::move_intent::{evidence_fits, move_outcome, move_state};
use crate::plan_laws::{lemma_held_plan_is_bare, lemma_plan_is_committed};
use crate::reassign::{
    DecisionView, ErrorView, EventView, HandoffRoute, LiveView, PLAN_ATTEMPTS, PlanView,
    ReassignActionView, ReassignOutcome, ReassignView, StageView, WorkKind, WorkView, bare,
    countable, decision_result, plan_holds, plan_result, reassign_action, reassign_step,
    single_evidence,
};

verus! {

/// The action changes something outside: the control document, a fence, data or live routing.
pub open spec fn has_effect(action: ReassignActionView) -> bool {
    match action {
        ReassignActionView::Propose { .. } => true,
        ReassignActionView::Fence { .. } => true,
        ReassignActionView::Handoff { .. } => true,
        ReassignActionView::Swap => true,
        _ => false,
    }
}

/// Every stage that works on a transition is of a started reassignment, and one that ends
/// without an outcome never started.
pub open spec fn start_respected(r: ReassignView) -> bool {
    match r.stage {
        StageView::Plan | StageView::Reserve(_) | StageView::Revalidate(_) | StageView::Route(
            ..,
        ) => true,
        StageView::Gate(..) => !r.started,
        StageView::Done(Ok(None)) => !r.started,
        StageView::Done(_) => true,
        _ => r.started,
    }
}

/// Whatever answers come, nothing is changed before the start was allowed; and where the
/// outcome is that nothing was started, no action before it had an effect.
pub proof fn lemma_declined_untouched(r: ReassignView, event: EventView)
    requires
        start_respected(r),
    ensures
        start_respected(reassign_step(r, event)),
        has_effect(reassign_action(r)) ==> r.started,
        reassign_step(r, event).stage == StageView::Done(Ok(None)) ==> !reassign_step(
            r,
            event,
        ).started,
        r.started ==> reassign_step(r, event).started,
{
}

/// A start that is refused, or endpoints that cannot be reserved in time, end a reassignment
/// that has not started, with nothing started.
pub proof fn lemma_declining(r: ReassignView)
    requires
        !r.started,
    ensures
        r.stage is Gate ==> reassign_step(r, EventView::Started(false)).stage == StageView::Done(
            Ok(None),
        ),
        r.stage is Reserve ==> reassign_step(r, EventView::TimedOut).stage == StageView::Done(
            Ok(None),
        ),
{
}

/// The order of the durable and physical steps: the source is fenced, or data moved, only once
/// the intent is in force; evidence is recorded only for a target that was attested under the
/// source's fence; the assignment is committed only once the evidence is in force; live routing
/// follows only once the commit is in force; and the intent is dropped only after that.
pub proof fn lemma_step_order(r: ReassignView, event: EventView)
    ensures
        ({
            let next = reassign_step(r, event);
            &&& next.stage is Fence && !(r.stage is Fence) ==> r.stage is Begin && event
                is Accepted
            &&& next.stage is Handoff && !(r.stage is Handoff) ==> r.stage is Begin && event
                is Accepted
            &&& next.stage is Attest && !(r.stage is Attest) ==> r.stage is Fence && event
                == EventView::Fence(r.stage->Fence_0.intent.source_fence_generation)
            &&& next.stage is Measure && !(r.stage is Measure) ==> r.stage is Handoff && event
                is Prepared
            &&& next.stage is MarkReady && !(r.stage is MarkReady) ==> (r.stage is Attest
                || r.stage is Measure) && event is Fingerprint
            &&& next.stage is Commit && !(r.stage is Commit) ==> r.stage is MarkReady && event
                is Accepted
            &&& next.stage is Swap && !(r.stage is Swap) ==> r.stage is Commit && event
                is Accepted
            &&& next.stage is Finish && !(r.stage is Finish) ==> {
                ||| r.stage is Commit && event is Accepted && !(
                r.stage->Commit_0.kind is Move)
                ||| r.stage is Swap && event is Swapped
            }
        }),
{
}

/// An intent is discarded only where the handoff failed before its target was prepared and the
/// source then answered that it has no fence.
pub proof fn lemma_clean_abort(r: ReassignView, event: EventView)
    ensures
        ({
            let next = reassign_step(r, event);
            &&& next.stage is Abort && !(r.stage is Abort) ==> r.stage is Probe && event
                == EventView::Fence(0)
            &&& next.stage is Probe && !(r.stage is Probe) ==> r.stage is Handoff && event
                is Failed
        }),
{
}

/// The transition that a stage works on, if any.
pub open spec fn stage_intent(stage: StageView) -> Option<IntentView> {
    match stage {
        StageView::Begin(work) => Some(work.intent),
        StageView::Fence(work) => Some(work.intent),
        StageView::Attest(work) => Some(work.intent),
        StageView::Handoff(work) => Some(work.intent),
        StageView::Measure(work, _) => Some(work.intent),
        StageView::MarkReady(work, _) => Some(work.intent),
        StageView::Commit(work) => Some(work.intent),
        StageView::Swap(work) => Some(work.intent),
        StageView::Finish(work) => Some(work.intent),
        StageView::Probe(work, _) => Some(work.intent),
        StageView::Abort(work, _) => Some(work.intent),
        _ => None,
    }
}

/// The transition of a reassignment is the same from its begin to its end.
pub proof fn lemma_one_transition(r: ReassignView, event: EventView)
    requires
        stage_intent(r.stage) is Some,
        stage_intent(reassign_step(r, event).stage) is Some,
    ensures
        stage_intent(reassign_step(r, event).stage) == stage_intent(r.stage),
{
}

/// What the document has, at the least, while a reassignment is at a stage: the intent before
/// anything is fenced or moved, its evidence before the commit, and the desired assignment
/// before live routing follows and the intent is dropped.
pub open spec fn recorded(state: ClusterStateView, r: ReassignView) -> bool {
    match r.stage {
        StageView::Fence(work) | StageView::Attest(work) | StageView::Handoff(work) => reached(
            state,
            work.intent,
            0,
        ),
        StageView::Measure(work, _) => reached(state, work.intent, 0),
        StageView::MarkReady(work, _) => reached(state, work.intent, 0),
        StageView::Commit(work) => reached(state, work.intent, 1),
        StageView::Swap(work) | StageView::Finish(work) => {
            &&& reached(state, work.intent, 2)
            &&& state.assignment(work.intent.position) == Some(work.intent.desired)
        },
        _ => true,
    }
}

/// Live routing never gets ahead of the document: once a proposal is in force, the document
/// has what the next stage rests on.
#[verifier::spinoff_prover]
pub proof fn lemma_document_leads(state: ClusterStateView, r: ReassignView)
    requires
        well_formed(state),
        recorded(state, r),
        reassign_action(r) is Propose,
        in_force(move_outcome(state, reassign_action(r)->command)),
    ensures
        recorded(
            move_state(state, reassign_action(r)->command),
            reassign_step(r, EventView::Accepted),
        ),
{
    let command = reassign_action(r)->command;
    let after = move_state(state, command);
    let next = reassign_step(r, EventView::Accepted);
    match r.stage {
        StageView::Begin(work) => {
            lemma_in_force_reached(state, work.intent, command);
            assert(reached(after, work.intent, 0));
            assert(next.stage == StageView::Handoff(work) || next.stage == StageView::Fence(work));
        },
        StageView::MarkReady(work, _) => {
            lemma_in_force_reached(state, work.intent, command);
            assert(reached(after, work.intent, 1));
            assert(next.stage == StageView::Commit(work));
        },
        StageView::Commit(work) => {
            assert(reached(state, work.intent, 0));
            lemma_in_force_reached(state, work.intent, command);
            assert(reached(after, work.intent, 2));
            assert(next.stage == StageView::Swap(work) || next.stage == StageView::Finish(work));
        },
        _ => {},
    }
}

/// No other answer takes a reassignment to a stage that the document does not have.
#[verifier::spinoff_prover]
pub proof fn lemma_answers_follow(state: ClusterStateView, r: ReassignView, event: EventView)
    requires
        recorded(state, r),
        !(event is Accepted),
    ensures
        recorded(state, reassign_step(r, event)),
{
    let next = reassign_step(r, event);
    match next.stage {
        StageView::Fence(_) | StageView::Handoff(_) | StageView::Commit(_) | StageView::Swap(_) => {
            assert(next.stage == r.stage);
        },
        _ => {},
    }
}

/// What other coordinators propose meanwhile does not take that away.
pub proof fn lemma_document_keeps(state: ClusterStateView, r: ReassignView, other: CommandView)
    requires
        well_formed(state),
        recorded(state, r),
        stage_intent(r.stage) matches Some(intent) && other.operation() != intent.operation_id,
    ensures
        recorded(move_state(state, other), r),
{
    let intent = stage_intent(r.stage)->0;
    if reached(state, intent, 0) {
        lemma_others_keep(state, intent, 0, other);
    }
    if reached(state, intent, 1) {
        lemma_others_keep(state, intent, 1, other);
    }
    if reached(state, intent, 2) {
        lemma_others_keep(state, intent, 2, other);
    }
}

/// The evidence of the one member of a bare assignment, at the intent's generation, is what
/// the intent asks for.
pub proof fn lemma_single_evidence_fits(
    intent: IntentView,
    fingerprint_lo: u64,
    fingerprint_hi: u64,
    live_count: u64,
)
    requires
        intent.desired == bare(intent.position, intent.desired.primary),
    ensures
        evidence_fits(
            intent,
            single_evidence(
                intent.live_generation,
                intent.desired.primary,
                fingerprint_lo,
                fingerprint_hi,
                live_count,
            ),
        ),
{
    let evidence = single_evidence(
        intent.live_generation,
        intent.desired.primary,
        fingerprint_lo,
        fingerprint_hi,
        live_count,
    );
    let nodes = intent.desired.nodes();
    assert(nodes =~= seq![intent.desired.primary]);
    assert forall|n: NodeId|
        has_key::<MoveMemberEvidence>(evidence.members, n.0) <==> #[trigger] nodes.contains(n) by {
        if has_key::<MoveMemberEvidence>(evidence.members, n.0) {
            assert(nodes[0] == n);
        }
        if nodes.contains(n) {
            assert(n == intent.desired.primary);
            assert(evidence.members[0].node == n);
        }
    }
}

// ---- What a run asks for and comes to -------------------------------------------------------

/// What a run keeps of its plans: a plan that is carried out is of the assignment that the document
/// has, and no planned or begun transition is of an assignment with replicas.
pub open spec fn plans_bare(r: ReassignView) -> bool {
    match r.stage {
        StageView::Reserve(plan) | StageView::Revalidate(plan) => plan.expected.replicas.len() == 0,
        StageView::Route(plan, state) => state.assignment(plan.expected.position) == Some(
            plan.expected,
        ) && plan.expected.replicas.len() == 0,
        StageView::Gate(plan, state, _, _) => state.assignment(plan.expected.position) == Some(
            plan.expected,
        ) && plan.expected.replicas.len() == 0,
        _ => match stage_intent(r.stage) {
            Some(intent) => intent.expected.replicas.len() == 0,
            None => true,
        },
    }
}

/// A reassignment never begins an intent whose expected assignment names a replica: a position
/// with replicas is refused when it is planned, and a plan whose position gets one before it is
/// carried out is given up.
#[verifier::spinoff_prover]
pub proof fn lemma_never_begins_replicated(r: ReassignView, event: EventView)
    requires
        plans_bare(r),
    ensures
        plans_bare(reassign_step(r, event)),
        reassign_action(r) matches ReassignActionView::Propose {
            command: CommandView::Begin(intent),
            ..
        } ==> intent.expected.replicas.len() == 0,
{
    match (r.stage, event) {
        (StageView::Plan, EventView::Control { state, live }) => {
            lemma_plan_is_committed(state, r.position, r.to, live);
        },
        (StageView::Revalidate(plan), EventView::Control { state, live }) => {
            if live matches LiveView::Primary(endpoint) && plan_holds(plan, state, endpoint) {
                lemma_held_plan_is_bare(plan, state, live->Primary_0);
            }
        },
        _ => {},
    }
}

/// How a reassignment gets to its start. A plan is reserved, endpoint by endpoint, and read again;
/// where it stands, its route is asked for and then the start, unless it has started before. Where
/// it does not stand, the request is planned anew, three times at the most.
#[verifier::spinoff_prover]
pub proof fn lemma_start_runs(
    r: ReassignView,
    plan: PlanView,
    state: ClusterStateView,
    endpoint: Seq<char>,
    route: HandoffRoute,
    generation: u64,
)
    requires
        r.stage == StageView::Reserve(plan),
    ensures
        ({
            let reserved = reassign_step(r, EventView::Reserved);
            let read = reassign_step(
                reserved,
                EventView::Control { state, live: LiveView::Primary(endpoint) },
            );
            let routed = reassign_step(read, EventView::Route { route, generation });
            let begun = reassign_step(routed, EventView::Started(true));
            &&& reassign_action(r) == (ReassignActionView::Reserve {
                endpoints: seq![plan.from_endpoint, plan.live_endpoint, plan.target_endpoint],
                bounded: !r.started,
            })
            &&& reassign_action(reserved) == ReassignActionView::Revalidate
            &&& plan_holds(plan, state, endpoint) ==> {
                &&& reassign_action(read) == (ReassignActionView::Route {
                    live: plan.live_endpoint,
                    target: plan.target_endpoint,
                })
                &&& !r.started ==> {
                    &&& reassign_action(routed) == ReassignActionView::TryStart
                    &&& !routed.started
                    &&& begun.started
                    &&& started_on(begun, plan, state, route, generation)
                }
                &&& r.started ==> started_on(routed, plan, state, route, generation)
            }
            &&& !plan_holds(plan, state, endpoint) ==> if r.attempt < 3 {
                &&& reassign_action(read) == ReassignActionView::Plan
                &&& read.attempt == r.attempt + 1
                &&& read.started == r.started
            } else {
                read.stage == StageView::Done(
                    Err(
                        ErrorView::Plain(
                            ShardError::ControlPlane(
                                ControlFault::PlanChurning { position: r.position as u64 },
                            ),
                        ),
                    ),
                )
            }
        }),
{
    assert(PLAN_ATTEMPTS == 4);
}

/// A started reassignment does what was decided: it ends with nothing changed, ends in the error,
/// or begins the transition.
pub open spec fn started_on(
    r: ReassignView,
    plan: PlanView,
    state: ClusterStateView,
    route: HandoffRoute,
    generation: u64,
) -> bool {
    match decision_result(state, plan, route, generation) {
        Ok(DecisionView::NoChange { generation: since }) => r.stage == StageView::Done(
            Ok(Some(ReassignOutcome::NoChange { position: r.position, generation: since })),
        ),
        Ok(DecisionView::Work(work)) => reassign_action(r) matches ReassignActionView::Propose {
            command,
            ..
        } && command == CommandView::Begin(work.intent) && r.stage == StageView::Begin(work),
        Err(e) => r.stage == StageView::Done(Err(e)),
    }
}

/// A command is proposed.
pub open spec fn proposes(r: ReassignView, command: CommandView) -> bool {
    reassign_action(r) matches ReassignActionView::Propose { command: proposed, .. } && proposed
        == command
}

/// The evidence is that of one member, as it was measured.
pub open spec fn measured(
    evidence: EvidenceView,
    generation: u64,
    node: NodeId,
    lo: u64,
    hi: u64,
    count: u64,
) -> bool {
    &&& evidence.live_generation == generation
    &&& evidence.members.len() == 1
    &&& evidence.members[0].node == node
    &&& evidence.members[0].fingerprint_lo == lo
    &&& evidence.members[0].fingerprint_hi == hi
    &&& evidence.members[0].live_count == count
}

/// A move that nothing disturbs, from its intent to its end: the data is handed from where it is
/// served to the target, the target is attested where it is, what was measured there is recorded
/// at the generation that was prepared, the assignment is committed, live routing follows, and the
/// intent is dropped. The outcome names the source, the target and the generation that now serves.
#[verifier::spinoff_prover]
pub proof fn lemma_move_runs(
    r: ReassignView,
    work: WorkView,
    prepared: u64,
    lo: u64,
    hi: u64,
    count: u64,
    swapped: u64,
)
    requires
        r.stage == StageView::Begin(work),
        work.kind == WorkKind::Move,
    ensures
        ({
            let id = work.intent.operation_id;
            let s1 = reassign_step(r, EventView::Accepted);
            let s2 = reassign_step(s1, EventView::Prepared { generation: prepared });
            let s3 = reassign_step(
                s2,
                EventView::Fingerprint {
                    fingerprint_lo: lo,
                    fingerprint_hi: hi,
                    live_count: count,
                },
            );
            let s4 = reassign_step(s3, EventView::Accepted);
            let s5 = reassign_step(s4, EventView::Accepted);
            let s6 = reassign_step(s5, EventView::Swapped { generation: swapped });
            let s7 = reassign_step(s6, EventView::Accepted);
            &&& proposes(r, CommandView::Begin(work.intent))
            &&& reassign_action(s1) == (ReassignActionView::Handoff {
                from: work.live_endpoint,
                to: work.desired_endpoint,
            })
            &&& reassign_action(s2) == (ReassignActionView::Attest {
                node: work.intent.desired.primary,
                endpoint: work.desired_endpoint,
            })
            &&& exists|evidence: EvidenceView|
                #[trigger] proposes(s3, CommandView::MarkReady { operation_id: id, evidence })
                    && measured(evidence, prepared, work.intent.desired.primary, lo, hi, count)
            &&& proposes(s4, CommandView::Commit { operation_id: id })
            &&& reassign_action(s5) == ReassignActionView::Swap
            &&& proposes(s6, CommandView::Finish { operation_id: id })
            &&& s7.stage == StageView::Done(
                Ok(
                    Some(
                        ReassignOutcome::Moved {
                            position: r.position,
                            from: work.intent.expected.primary,
                            to: r.to,
                            generation: swapped,
                        },
                    ),
                ),
            )
        }),
{
    let s1 = reassign_step(r, EventView::Accepted);
    let s2 = reassign_step(s1, EventView::Prepared { generation: prepared });
    let s3 = reassign_step(
        s2,
        EventView::Fingerprint { fingerprint_lo: lo, fingerprint_hi: hi, live_count: count },
    );
    let evidence = single_evidence(prepared, work.intent.desired.primary, lo, hi, count);
    assert(proposes(
        s3,
        CommandView::MarkReady { operation_id: work.intent.operation_id, evidence },
    ));
}

/// The committed map follows an authority that is already live, where nothing disturbs it: the
/// committed source is fenced as recorded, the authority is attested where it serves, what was
/// measured there is recorded at its generation, and the assignment is committed. A request that
/// had only to follow ends so; one that had to follow a third authority first is planned anew,
/// as often as a fresh one may be.
#[verifier::spinoff_prover]
pub proof fn lemma_follow_runs(r: ReassignView, work: WorkView, lo: u64, hi: u64, count: u64)
    requires
        r.stage == StageView::Begin(work),
        work.kind != WorkKind::Move,
    ensures
        ({
            let id = work.intent.operation_id;
            let s1 = reassign_step(r, EventView::Accepted);
            let s2 = reassign_step(s1, EventView::Fence(work.intent.source_fence_generation));
            let s3 = reassign_step(
                s2,
                EventView::Fingerprint {
                    fingerprint_lo: lo,
                    fingerprint_hi: hi,
                    live_count: count,
                },
            );
            let s4 = reassign_step(s3, EventView::Accepted);
            let s5 = reassign_step(s4, EventView::Accepted);
            let s6 = reassign_step(s5, EventView::Accepted);
            &&& proposes(r, CommandView::Begin(work.intent))
            &&& reassign_action(s1) == (ReassignActionView::Fence {
                node: work.intent.expected.primary,
                endpoint: work.source_endpoint,
                generation: work.intent.source_fence_generation,
            })
            &&& forall|other: u64|
                other != work.intent.source_fence_generation ==> (#[trigger] reassign_step(
                    s1,
                    EventView::Fence(other),
                )).stage == StageView::Done(
                    Err(
                        ErrorView::Plain(
                            ShardError::ControlPlane(
                                ControlFault::SourceFence {
                                    operation_id: id,
                                    expected: work.intent.source_fence_generation,
                                    observed: other,
                                },
                            ),
                        ),
                    ),
                )
            &&& reassign_action(s2) == (ReassignActionView::Attest {
                node: work.intent.desired.primary,
                endpoint: work.desired_endpoint,
            })
            &&& exists|evidence: EvidenceView|
                #[trigger] proposes(s3, CommandView::MarkReady { operation_id: id, evidence })
                    && measured(
                    evidence,
                    work.intent.live_generation,
                    work.intent.desired.primary,
                    lo,
                    hi,
                    count,
                )
            &&& proposes(s4, CommandView::Commit { operation_id: id })
            &&& proposes(s5, CommandView::Finish { operation_id: id })
            &&& work.kind == WorkKind::Reconcile ==> s6.stage == StageView::Done(
                Ok(
                    Some(
                        ReassignOutcome::Reconciled {
                            position: r.position,
                            from: work.intent.expected.primary,
                            to: r.to,
                            generation: work.generation,
                        },
                    ),
                ),
            )
            &&& work.kind == WorkKind::Chained ==> {
                &&& reassign_action(s6) == ReassignActionView::Plan
                &&& s6.attempt == 0
                &&& s6.started == r.started
                &&& s6.position == r.position
                &&& s6.to == r.to
            }
        }),
{
    let s1 = reassign_step(r, EventView::Accepted);
    let s2 = reassign_step(s1, EventView::Fence(work.intent.source_fence_generation));
    let s3 = reassign_step(
        s2,
        EventView::Fingerprint { fingerprint_lo: lo, fingerprint_hi: hi, live_count: count },
    );
    let evidence = single_evidence(
        work.intent.live_generation,
        work.intent.desired.primary,
        lo,
        hi,
        count,
    );
    assert(proposes(
        s3,
        CommandView::MarkReady { operation_id: work.intent.operation_id, evidence },
    ));
}

/// A handoff that fails: the endpoint that serves is asked for its fence, and the intent is
/// discarded where it has none. Whatever comes of that, the error of the handoff is reported.
#[verifier::spinoff_prover]
pub proof fn lemma_failed_handoff(
    r: ReassignView,
    work: WorkView,
    error: ErrorView,
    other: ErrorView,
    fence: u64,
)
    requires
        r.stage == StageView::Handoff(work),
    ensures
        ({
            let end = StageView::Done(Err::<Option<ReassignOutcome>, ErrorView>(error));
            let s1 = reassign_step(r, EventView::Failed(error));
            let s2 = reassign_step(s1, EventView::Fence(fence));
            &&& reassign_action(s1) == (ReassignActionView::Probe { endpoint: work.live_endpoint })
            &&& fence != 0 ==> s2.stage == end
            &&& fence == 0 ==> {
                &&& proposes(s2, CommandView::Abort { operation_id: work.intent.operation_id })
                &&& reassign_step(s2, EventView::Accepted).stage == end
                &&& reassign_step(s2, EventView::Failed(other)).stage == end
            }
            &&& reassign_step(s1, EventView::Failed(other)).stage == end
        }),
{
}

/// An answer belongs to a stage: it is one that the action of the stage can have.
pub open spec fn answers(stage: StageView, event: EventView) -> bool {
    match event {
        EventView::Control { .. } => stage is Plan || stage is Revalidate,
        EventView::Reserved => stage is Reserve,
        EventView::TimedOut => stage is Reserve,
        EventView::Route { .. } => stage is Route,
        EventView::Started(_) => stage is Gate,
        EventView::Accepted => stage is Begin || stage is MarkReady || stage is Commit || stage
            is Finish || stage is Abort,
        EventView::Fence(_) => stage is Fence || stage is Probe,
        EventView::Fingerprint { .. } => stage is Attest || stage is Measure,
        EventView::Prepared { .. } => stage is Handoff,
        EventView::Swapped { .. } => stage is Swap,
        EventView::Failed(_) => !(stage is Done),
    }
}

/// An answer that does not belong to the stage changes nothing; one that does takes the
/// reassignment on. No answer changes the position or the target; only the answer that allows the
/// start starts it, and only plans that are given up are counted. A failed action ends it with the
/// error, but for a handoff and for what cleans up after one.
pub proof fn lemma_answers(r: ReassignView, event: EventView)
    ensures
        ({
            let next = reassign_step(r, event);
            &&& answers(r.stage, event) <==> next.stage != r.stage
            &&& !answers(r.stage, event) ==> next == r
            &&& next.position == r.position
            &&& next.to == r.to
            &&& next.started <==> r.started || (r.stage is Gate && event == EventView::Started(
                true,
            ))
            &&& next.attempt == if r.stage is Revalidate && next.stage is Plan {
                r.attempt + 1
            } else if r.stage is Finish && next.stage is Plan {
                0
            } else {
                r.attempt as int
            }
            &&& event matches EventView::Failed(e) ==> (!(r.stage is Done) && !(r.stage is Handoff)
                && !(r.stage is Probe) && !(r.stage is Abort) ==> next.stage == StageView::Done(
                Err::<Option<ReassignOutcome>, ErrorView>(e),
            ))
            &&& r.stage is Plan && event is Control ==> match plan_result(
                event->state,
                r.position,
                r.to,
                event->live,
            ) {
                Ok(plan) => next.stage == StageView::Reserve(plan),
                Err(e) => next.stage == StageView::Done(
                    Err::<Option<ReassignOutcome>, ErrorView>(ErrorView::Plain(e)),
                ),
            }
            &&& r.stage is Reserve && event == EventView::TimedOut && r.started ==> next.stage
                == StageView::Done(
                Err::<Option<ReassignOutcome>, ErrorView>(
                    ErrorView::Plain(ShardError::DeadlineExceeded),
                ),
            )
            &&& r.stage is Revalidate && event is Control && !(event->live is Primary)
                ==> next.stage == StageView::Done(
                Err::<Option<ReassignOutcome>, ErrorView>(
                    ErrorView::Plain(
                        ShardError::Config(
                            ConfigFault::LostLivePrimary {
                                position: r.stage->Revalidate_0.expected.position as u64,
                            },
                        ),
                    ),
                ),
            )
        }),
{
}

/// A route can be answered at every generation that can still be counted on: at every one but the
/// last. Every other answer may always come.
pub proof fn lemma_countable(event: EventView)
    ensures
        countable(event) <==> !(event matches EventView::Route { generation, .. } && generation
            == u64::MAX),
{
}

/// A command is proposed, with this context.
pub open spec fn proposes_as(r: ReassignView, command: CommandView, context: Seq<char>) -> bool {
    reassign_action(r) == (ReassignActionView::Propose { command, context })
}

/// What an operator is told about a proposal: which step it is, and, where the map only follows,
/// what it follows.
pub proof fn lemma_contexts(r: ReassignView)
    ensures
        match r.stage {
            StageView::Begin(work) => proposes_as(
                r,
                CommandView::Begin(work.intent),
                match work.kind {
                    WorkKind::Chained => "reassign_and_move: persist chained-source reconciliation"@,
                    WorkKind::Reconcile => "reassign_and_move: persist intent"@,
                    WorkKind::Move => "reassign_and_move: persist intent"@,
                },
            ),
            StageView::MarkReady(work, evidence) => proposes_as(
                r,
                CommandView::MarkReady { operation_id: work.intent.operation_id, evidence },
                match work.kind {
                    WorkKind::Chained => "reassign_and_move: commit chained live source"@,
                    WorkKind::Reconcile => "reassign_and_move: commit already-live target"@,
                    WorkKind::Move => "reassign_and_move: persist target evidence"@,
                },
            ),
            StageView::Commit(work) => proposes_as(
                r,
                CommandView::Commit { operation_id: work.intent.operation_id },
                match work.kind {
                    WorkKind::Chained => "reassign_and_move: commit chained live source"@,
                    WorkKind::Reconcile => "reassign_and_move: commit already-live target"@,
                    WorkKind::Move => "reassign_and_move: conditional assignment commit"@,
                },
            ),
            StageView::Finish(work) => proposes_as(
                r,
                CommandView::Finish { operation_id: work.intent.operation_id },
                match work.kind {
                    WorkKind::Chained => "reassign_and_move: finish chained-source reconciliation"@,
                    WorkKind::Reconcile => "reassign_and_move: finish durable move"@,
                    WorkKind::Move => "reassign_and_move: finish durable move"@,
                },
            ),
            StageView::Abort(work, _) => proposes_as(
                r,
                CommandView::Abort { operation_id: work.intent.operation_id },
                "reassign_and_move: abort clean preparation"@,
            ),
            _ => !(reassign_action(r) is Propose),
        },
{
}

} // verus!
