use std::collections::HashMap;

use reverse_rusty::control::{ControlPlane, InMemoryControlPlane};
use reverse_rusty::document::{
    ClusterState, ClusterStateChange, MoveCommand, MoveCommandOutcome, MoveInitialAuthority,
    MoveIntent, MoveIntentPhase, MoveMemberEvidence, MoveMemberIdentity, MoveProposalResult,
    MoveRecoveryEvidence, NodeDescriptor, NodeId, NodeRole, ShardAssignment, StateVersion,
    MOVE_INTENT_VERSION,
};
use reverse_rusty::error::{ConfigFault, ControlError, ControlFault, ShardError};
use reverse_rusty::intent::{
    after_attempt, build_intent, member_evidence, operation_id, plan_live_authority_fence,
    recovery_evidence, Attempt, COMMAND_ATTEMPTS,
};
use reverse_rusty::rebalance::{rebalance_preflight, RebalanceMoveReport, RebalanceSweep};
use reverse_rusty::reassign::{
    HandoffRoute, LiveRoute, Reassign, ReassignAction, ReassignEvent, ReassignOutcome,
    PLAN_ATTEMPTS,
};
use reverse_rusty::recovery::{
    member_identity, validate_identity, validate_intent_set, Recovery, RecoveryAction,
    RecoveryEvent, RecoverySweep, Stage, SweepStep,
};
use reverse_rusty::text::normalized_move_endpoint;

const SRC: &str = "http://127.0.0.1:50051";
const TGT: &str = "http://127.0.0.1:50052";
const THIRD: &str = "http://127.0.0.1:50053";

/// The shard processes, by endpoint: their fence and the rows they hold.
struct Mesh {
    fences: HashMap<String, u64>,
    rows: HashMap<String, Vec<u64>>,
    /// Where the position is served from, and since which generation.
    live: String,
    generation: u64,
    /// Answer of the control plane to a commit.
    commits_available: bool,
    /// Every step with an effect, in order.
    trace: Vec<String>,
    handoff_fails: bool,
    start: bool,
    /// What happens to the document while the endpoints are being reserved.
    churn: u32,
}

impl Mesh {
    fn new() -> Self {
        let mut rows = HashMap::new();
        rows.insert(SRC.to_string(), vec![11, 12]);
        Mesh {
            fences: HashMap::new(),
            rows,
            live: SRC.to_string(),
            generation: 0,
            commits_available: true,
            trace: Vec::new(),
            handoff_fails: false,
            start: true,
            churn: 0,
        }
    }

    fn fence(&mut self, endpoint: &str, generation: u64) -> u64 {
        let current = self.fences.entry(endpoint.to_string()).or_insert(0);
        *current = (*current).max(generation);
        *current
    }

    fn unfence(&mut self, endpoint: &str, generation: u64) -> u64 {
        let current = self.fences.entry(endpoint.to_string()).or_insert(0);
        if *current == generation {
            *current = 0;
        }
        *current
    }

    fn fingerprint(&self, endpoint: &str) -> (u64, u64, u64) {
        let rows = self.rows.get(endpoint).cloned().unwrap_or_default();
        let lo = rows.iter().fold(0u64, |a, r| a.wrapping_add(r * r));
        let hi = rows.iter().fold(0u64, |a, r| a ^ (r << 7));
        (lo, hi, rows.len() as u64)
    }

    /// A handoff outside the durable protocol: the target serves, the source is fenced.
    fn raw_handoff(&mut self, to: &str) {
        let rows = self.rows[&self.live].clone();
        self.rows.insert(to.to_string(), rows);
        self.generation += 1;
        let from = self.live.clone();
        self.fence(&from, self.generation);
        self.live = to.to_string();
    }

    fn add_query(&mut self, id: u64) {
        let live = self.live.clone();
        self.rows.entry(live).or_default().push(id);
    }
}

fn member(id: u64, addr: &str) -> NodeDescriptor {
    NodeDescriptor {
        id: NodeId(id),
        addr: Some(addr.to_string()),
        role: NodeRole::Data,
    }
}

fn scenario() -> (InMemoryControlPlane, Mesh) {
    let mut control = InMemoryControlPlane::single_node(1, 64, 0);
    for (id, addr) in [(1, SRC), (2, TGT)] {
        control
            .propose(ClusterStateChange::AddNode(member(id, addr)))
            .unwrap();
    }
    control
        .propose(ClusterStateChange::AssignShard(ShardAssignment {
            position: 0,
            primary: NodeId(1),
            replicas: Vec::new(),
        }))
        .unwrap();
    (control, Mesh::new())
}

fn intent(state: &ClusterState) -> MoveIntent {
    let expected = state
        .assignments
        .iter()
        .find(|assignment| assignment.position == 0)
        .expect("source assignment")
        .clone();
    MoveIntent {
        intent_version: MOVE_INTENT_VERSION,
        operation_id: 0xD0_0001,
        position: 0,
        expected_assignment_generation: state.moves.assignment_generation(0),
        placement_generation: state.placement_generation,
        expected,
        desired: ShardAssignment {
            position: 0,
            primary: NodeId(2),
            replicas: Vec::new(),
        },
        members: vec![
            MoveMemberIdentity {
                node: NodeId(1),
                endpoint: SRC.to_string(),
            },
            MoveMemberIdentity {
                node: NodeId(2),
                endpoint: TGT.to_string(),
            },
        ],
        live_generation: 1,
        source_fence_generation: 1,
        initial_authority: MoveInitialAuthority::Desired,
        phase: MoveIntentPhase::Preparing,
    }
}

fn target_evidence(mesh: &Mesh) -> MoveRecoveryEvidence {
    let (fingerprint_lo, fingerprint_hi, live_count) = mesh.fingerprint(TGT);
    MoveRecoveryEvidence {
        live_generation: 1,
        members: vec![MoveMemberEvidence {
            node: NodeId(2),
            fingerprint_lo,
            fingerprint_hi,
            live_count,
        }],
    }
}

fn begin(control: &mut InMemoryControlPlane, intent: &MoveIntent) {
    let outcome = control
        .propose_move(MoveCommand::Begin(intent.clone()))
        .expect("begin intent")
        .outcome;
    assert_eq!(outcome, MoveCommandOutcome::Applied);
}

fn mark_ready(control: &mut InMemoryControlPlane, intent: &MoveIntent, mesh: &Mesh) {
    let outcome = control
        .propose_move(MoveCommand::MarkReady {
            operation_id: intent.operation_id,
            evidence: target_evidence(mesh),
        })
        .expect("mark ready")
        .outcome;
    assert_eq!(outcome, MoveCommandOutcome::Applied);
}

fn propose(
    control: &mut InMemoryControlPlane,
    mesh: &mut Mesh,
    command: MoveCommand,
    context: &str,
) -> Result<(), ShardError> {
    let operation_id = command.operation_id();
    for attempt in 0..COMMAND_ATTEMPTS {
        let lost = matches!(command, MoveCommand::Commit { .. }) && !mesh.commits_available;
        let answer = if lost {
            Err(ControlError::Backend(
                "injected control-write quorum loss before move commit".to_string(),
            ))
        } else {
            control.propose_move(command.clone())
        };
        match after_attempt(attempt, answer, operation_id, context) {
            Attempt::Accepted => {
                mesh.trace.push(context.to_string());
                return Ok(());
            }
            Attempt::Failed(error) => return Err(error),
            Attempt::Retry => {}
        }
    }
    unreachable!("the last attempt is final")
}

fn resolve(
    control: &mut InMemoryControlPlane,
    mesh: &mut Mesh,
    recovery: &mut Recovery,
) -> Result<(), ShardError> {
    loop {
        let event = match recovery.action()? {
            RecoveryAction::Fence {
                endpoint,
                generation,
                ..
            } => RecoveryEvent::Fence(mesh.fence(&endpoint, generation)),
            RecoveryAction::Unfence {
                endpoint,
                generation,
                ..
            } => RecoveryEvent::Fence(mesh.unfence(&endpoint, generation)),
            RecoveryAction::Fingerprint { endpoint, .. } => {
                let (fingerprint_lo, fingerprint_hi, live_count) = mesh.fingerprint(&endpoint);
                RecoveryEvent::Fingerprint {
                    fingerprint_lo,
                    fingerprint_hi,
                    live_count,
                }
            }
            RecoveryAction::Propose { command, context } => {
                propose(control, mesh, command, &context)?;
                RecoveryEvent::Accepted
            }
            RecoveryAction::Finished => return Ok(()),
        };
        recovery.advance(event)?;
    }
}

fn recover(control: &mut InMemoryControlPlane, mesh: &mut Mesh) -> Result<usize, ShardError> {
    let mut sweep = RecoverySweep::new();
    loop {
        sweep.may_read()?;
        let state = control.cluster_state().map_err(ShardError::from)?;
        match sweep.observe(&state)? {
            SweepStep::ReadAgain => {}
            SweepStep::Resolve(mut recovery) => {
                resolve(control, mesh, &mut recovery)?;
                assert_eq!(recovery.stage(), Stage::Done);
                sweep.resolved();
            }
            SweepStep::Finished(recovered) => return Ok(recovered),
        }
    }
}

#[test]
fn startup_commits_a_preparing_desired_authority_without_stale_recopy() {
    let (mut control, mut mesh) = scenario();
    mesh.raw_handoff(TGT);
    mesh.add_query(13);
    let move_intent = intent(&control.cluster_state().unwrap());
    begin(&mut control, &move_intent);
    assert_eq!(
        recover(&mut control, &mut mesh).expect("startup recovery"),
        1
    );
    let recovered = control.cluster_state().expect("recovered state");
    assert!(recovered.moves.intents.is_empty());
    assert_eq!(recovered.assignments[0].primary, NodeId(2));
    assert!(
        mesh.rows[TGT].contains(&13),
        "startup must preserve the post-handoff write that exists only on the desired authority"
    );
}

#[test]
fn startup_fences_an_unadopted_map_only_source_after_intent_replay() {
    let (mut control, mut mesh) = scenario();
    control
        .propose(ClusterStateChange::AssignShard(ShardAssignment {
            position: 0,
            primary: NodeId(2),
            replicas: Vec::new(),
        }))
        .expect("craft map-only target while node one remains live");
    let state = control.cluster_state().expect("map-only state");
    let mut move_intent = intent(&state);
    move_intent.desired.primary = NodeId(1);
    move_intent.live_generation = 0;
    move_intent.source_fence_generation = 1;
    begin(&mut control, &move_intent);

    assert_eq!(
        recover(&mut control, &mut mesh)
            .expect("adopt and fence mapped source, then restore live authority"),
        1
    );
    let recovered = control.cluster_state().expect("recovered state");
    assert_eq!(recovered.assignments[0].primary, NodeId(1));
    assert!(recovered.moves.intents.is_empty());
    assert_eq!(mesh.fence(TGT, 0), 1, "the mapped source was fenced");
    assert_eq!(mesh.fence(SRC, 0), 0, "the live source remains writable");
}

#[test]
fn startup_ready_expected_authority_evidence_mismatch_fails_loud() {
    let (mut control, mut mesh) = scenario();
    mesh.raw_handoff(TGT);
    let mut move_intent = intent(&control.cluster_state().unwrap());
    move_intent.initial_authority = MoveInitialAuthority::Expected;
    begin(&mut control, &move_intent);
    mark_ready(&mut control, &move_intent, &mesh);
    mesh.add_query(14);

    let error = recover(&mut control, &mut mesh).expect_err("evidence drift must fail startup");
    assert!(error.message().contains("evidence changed"));
    let state = control.cluster_state().expect("state after refusal");
    assert!(matches!(
        state.moves.intents[0].phase,
        MoveIntentPhase::Ready(_)
    ));
    assert_eq!(state.assignments[0].primary, NodeId(1));
}

#[test]
fn startup_ready_desired_authority_accepts_post_ready_writes() {
    let (mut control, mut mesh) = scenario();
    mesh.raw_handoff(TGT);
    let move_intent = intent(&control.cluster_state().unwrap());
    begin(&mut control, &move_intent);
    mark_ready(&mut control, &move_intent, &mesh);
    mesh.add_query(14);

    assert_eq!(
        recover(&mut control, &mut mesh).expect("commit advanced desired authority"),
        1
    );
    let recovered = control.cluster_state().expect("recovered state");
    assert_eq!(recovered.assignments[0].primary, NodeId(2));
    assert!(recovered.moves.intents.is_empty());
    assert!(mesh.rows[TGT].contains(&14));
}

#[test]
fn startup_commits_exact_ready_evidence_before_serving() {
    let (mut control, mut mesh) = scenario();
    mesh.raw_handoff(TGT);
    let move_intent = intent(&control.cluster_state().unwrap());
    begin(&mut control, &move_intent);
    mark_ready(&mut control, &move_intent, &mesh);

    assert_eq!(
        recover(&mut control, &mut mesh).expect("commit exact ready intent"),
        1
    );
    let state = control.cluster_state().expect("committed state");
    assert_eq!(state.assignments[0].primary, NodeId(2));
    assert!(state.moves.intents.is_empty());
}

#[test]
fn startup_recovers_ready_move_after_control_write_quorum_returns_without_request_retry() {
    let (mut control, mut mesh) = scenario();
    mesh.commits_available = false;

    let error = reassign(&mut control, &mut mesh, 0, NodeId(2))
        .expect_err("conditional commit must fail while control writes are unavailable");
    assert!(error.message().contains("quorum loss"));
    let interrupted = control.cluster_state().expect("interrupted state");
    assert_eq!(interrupted.assignments[0].primary, NodeId(1));
    assert!(matches!(
        interrupted.moves.intents[0].phase,
        MoveIntentPhase::Ready(_)
    ));
    drop(interrupted);

    mesh.commits_available = true;
    assert_eq!(
        recover(&mut control, &mut mesh).expect("startup completes the ready transition"),
        1
    );
    let recovered = control.cluster_state().expect("recovered state");
    assert_eq!(recovered.assignments[0].primary, NodeId(2));
    assert!(recovered.moves.intents.is_empty());
    assert_eq!(mesh.rows[TGT], vec![11, 12]);
}

#[test]
fn startup_finishes_a_committed_intent_after_the_live_swap_boundary() {
    let (mut control, mut mesh) = scenario();
    mesh.raw_handoff(TGT);
    let move_intent = intent(&control.cluster_state().unwrap());
    begin(&mut control, &move_intent);
    mark_ready(&mut control, &move_intent, &mesh);
    control
        .propose_move(MoveCommand::Commit {
            operation_id: move_intent.operation_id,
        })
        .expect("commit before simulated crash");
    mesh.add_query(16);

    assert_eq!(
        recover(&mut control, &mut mesh).expect("finish committed move"),
        1
    );
    let state = control.cluster_state().expect("clean committed state");
    assert_eq!(state.assignments[0].primary, NodeId(2));
    assert!(state.moves.intents.is_empty());
}

#[test]
fn startup_refuses_ready_intent_when_the_recorded_source_fence_is_gone() {
    let (mut control, mut mesh) = scenario();
    mesh.raw_handoff(TGT);
    let move_intent = intent(&control.cluster_state().unwrap());
    begin(&mut control, &move_intent);
    mark_ready(&mut control, &move_intent, &mesh);
    assert_eq!(mesh.unfence(SRC, 1), 0);

    let error =
        recover(&mut control, &mut mesh).expect_err("missing authority fence must fail startup");
    assert!(error.message().contains("expected source fence"));
    let state = control.cluster_state().expect("state after refusal");
    assert!(matches!(
        state.moves.intents[0].phase,
        MoveIntentPhase::Ready(_)
    ));
    assert_eq!(state.assignments[0].primary, NodeId(1));
}

#[test]
fn startup_preparing_expected_aborts_only_after_source_is_writable() {
    let (mut control, mut mesh) = scenario();
    let mut move_intent = intent(&control.cluster_state().unwrap());
    move_intent.initial_authority = MoveInitialAuthority::Expected;
    begin(&mut control, &move_intent);
    mesh.fence(SRC, 1);

    assert_eq!(recover(&mut control, &mut mesh).expect("clean abort"), 1);
    let state = control.cluster_state().expect("state after abort");
    assert!(state.moves.intents.is_empty());
    assert_eq!(state.assignments[0].primary, NodeId(1));
    assert_eq!(mesh.fence(SRC, 0), 0, "expected source remains writable");
}

#[test]
fn a_source_under_another_fence_keeps_its_preparing_intent() {
    let (mut control, mut mesh) = scenario();
    let mut move_intent = intent(&control.cluster_state().unwrap());
    move_intent.initial_authority = MoveInitialAuthority::Expected;
    begin(&mut control, &move_intent);
    mesh.fence(SRC, 9);
    let error = recover(&mut control, &mut mesh).expect_err("still fenced");
    assert_eq!(
        error,
        ShardError::ControlPlane(ControlFault::ExpectedFenced {
            operation_id: 0xD0_0001,
            generation: 9
        })
    );
    assert_eq!(
        error.message(),
        "durable move 13631489 expected source remains fenced at generation 9; refusing to \
         discard the intent"
    );
    assert_eq!(control.cluster_state().unwrap().moves.intents.len(), 1);
}

#[test]
fn a_fenced_desired_member_ends_the_recovery() {
    let (mut control, mut mesh) = scenario();
    let move_intent = intent(&control.cluster_state().unwrap());
    begin(&mut control, &move_intent);
    mesh.fence(TGT, 4);
    let error = recover(&mut control, &mut mesh).expect_err("desired is fenced");
    assert_eq!(
        error.message(),
        "durable move 13631489 desired member 2 remains fenced at generation 4"
    );
}

#[test]
fn a_retained_source_is_unfenced_before_the_intent_is_dropped() {
    let (mut control, mut mesh) = scenario();
    let mut move_intent = intent(&control.cluster_state().unwrap());
    move_intent.desired.replicas = vec![NodeId(1)];
    begin(&mut control, &move_intent);
    assert_eq!(recover(&mut control, &mut mesh).expect("recovered"), 1);
    assert_eq!(mesh.fence(SRC, 0), 0);
    let state = control.cluster_state().unwrap();
    assert_eq!(state.assignments[0].replicas, vec![NodeId(1)]);

    // A fence of another generation cannot be taken away.
    let (mut control, mut mesh) = scenario();
    begin(&mut control, &move_intent);
    let state = control.cluster_state().unwrap();
    let mut recovery = Recovery::start(&state, move_intent).ok().expect("valid");
    drop(state);
    loop {
        if recovery.stage() == Stage::ClearRetained {
            let error = recovery
                .advance(RecoveryEvent::Fence(7))
                .expect_err("still fenced");
            assert_eq!(
                error.message(),
                "durable move 13631489 retained source could not be unfenced; generation 7 remains"
            );
            break;
        }
        let event = match recovery.action().unwrap() {
            RecoveryAction::Fence { generation, .. } => RecoveryEvent::Fence(generation),
            RecoveryAction::Fingerprint { endpoint, .. } => {
                let (fingerprint_lo, fingerprint_hi, live_count) = mesh.fingerprint(&endpoint);
                RecoveryEvent::Fingerprint {
                    fingerprint_lo,
                    fingerprint_hi,
                    live_count,
                }
            }
            RecoveryAction::Propose { command, context } => {
                propose(&mut control, &mut mesh, command, &context).unwrap();
                RecoveryEvent::Accepted
            }
            other => panic!("{other:?}"),
        };
        recovery.advance(event).unwrap();
    }
}

#[test]
fn an_answer_of_another_kind_changes_nothing() {
    let (mut control, _) = scenario();
    let move_intent = intent(&control.cluster_state().unwrap());
    begin(&mut control, &move_intent);
    let state = control.cluster_state().unwrap();
    let mut recovery = Recovery::start(&state, move_intent).ok().expect("valid");
    assert_eq!(recovery.operation_id(), 0xD0_0001);
    assert_eq!(recovery.stage(), Stage::CheckSource);
    recovery.advance(RecoveryEvent::Accepted).unwrap();
    assert_eq!(recovery.stage(), Stage::CheckSource);
}

#[test]
fn identity_drift_fails_the_start_with_its_reason() {
    let (mut control, _) = scenario();
    let base = intent(&control.cluster_state().unwrap());
    begin(&mut control, &base);
    let state = (*control.cluster_state().unwrap()).clone();
    assert_eq!(validate_identity(&state, &base), Ok(()));
    assert_eq!(validate_intent_set(&state), Ok(()));
    let check = |state: &ClusterState, intent: &MoveIntent, message: &str| {
        let error = validate_identity(state, intent).expect_err("refused");
        assert_eq!(error.message(), message);
    };

    let mut resized = state.clone();
    resized.placement_generation += 1;
    check(
        &resized,
        &base,
        "durable move 13631489 has an incompatible version, position, or placement generation",
    );
    let mut old = base.clone();
    old.intent_version = 0;
    check(
        &state,
        &old,
        "durable move 13631489 has an incompatible version, position, or placement generation",
    );
    let mut partial = base.clone();
    partial.members.pop();
    check(
        &state,
        &partial,
        "durable move 13631489 has an incomplete or non-canonical member identity set",
    );
    let mut moved = state.clone();
    moved.nodes[1].addr = Some(THIRD.to_string());
    check(
        &moved,
        &base,
        "durable move 13631489 endpoint identity changed for node 1",
    );
    let mut gone = state.clone();
    gone.nodes[2].addr = None;
    check(
        &gone,
        &base,
        "durable move 13631489 node 2 no longer has an endpoint",
    );
    let mut rewritten = state.clone();
    rewritten.moves.bump_assignment_generation(0);
    check(
        &rewritten,
        &base,
        "durable move 13631489 expected assignment predicate no longer holds",
    );
    let mut committed = base.clone();
    committed.phase = MoveIntentPhase::Committed(MoveRecoveryEvidence {
        live_generation: 1,
        members: vec![],
    });
    check(
        &state,
        &committed,
        "durable move 13631489 committed assignment predicate no longer holds",
    );
    let error = member_identity(&base, NodeId(9)).expect_err("not a member");
    assert_eq!(
        error.message(),
        "durable move 13631489 lacks identity for node 9"
    );
}

#[test]
fn an_unsound_set_of_intents_fails_the_start() {
    let (control, _) = scenario();
    let mut state = (*control.cluster_state().unwrap()).clone();
    let first = intent(&state);
    let mut second = first.clone();
    second.operation_id = 2;
    state.moves.intents = vec![first.clone(), second.clone()];
    let error = RecoverySweep::new()
        .observe(&state)
        .err()
        .expect("one position twice");
    assert_eq!(
        error.message(),
        "durable move state has duplicate or non-canonical positions"
    );
    second.position = 1;
    state.moves.intents = vec![first.clone(), second.clone()];
    let error = validate_intent_set(&state).expect_err("one endpoint twice");
    assert_eq!(
        error.message(),
        "durable move state has duplicate operation ids or overlapping endpoint reservations"
    );
    second.members[0].endpoint = THIRD.to_string();
    second.members[1].endpoint = "http://other".to_string();
    state.moves.intents = vec![first.clone(), second.clone()];
    assert_eq!(validate_intent_set(&state), Ok(()));
    second.operation_id = first.operation_id;
    state.moves.intents = vec![first, second];
    assert!(validate_intent_set(&state).is_err());
}

#[test]
fn intents_that_keep_appearing_end_the_start() {
    let (mut control, _) = scenario();
    let move_intent = intent(&control.cluster_state().unwrap());
    begin(&mut control, &move_intent);
    let with_intent = control.cluster_state().unwrap();
    let mut without = (*with_intent).clone();
    without.moves.intents.clear();
    let mut sweep = RecoverySweep::new();
    for _ in 0..4 {
        assert!(sweep.may_read().is_ok());
        assert!(matches!(
            sweep.observe(&with_intent),
            Ok(SweepStep::ReadAgain)
        ));
        // The queued operation is gone when its turn comes.
        assert!(matches!(sweep.observe(&without), Ok(SweepStep::ReadAgain)));
    }
    let error = sweep.may_read().expect_err("churning");
    assert_eq!(
        error.message(),
        "durable move intents kept appearing during startup recovery; refusing to serve while \
         control state is churning"
    );
    assert_eq!(sweep.observe(&with_intent).err(), Some(error));
}

// ---- Reassignment ----------------------------------------------------------------------------

fn reassign(
    control: &mut InMemoryControlPlane,
    mesh: &mut Mesh,
    position: usize,
    to: NodeId,
) -> Result<Option<ReassignOutcome>, ShardError> {
    let mut reassign = Reassign::reassign_and_move(position, to)?;
    let mut reserved = false;
    loop {
        let event = match reassign.action() {
            ReassignAction::Plan => {
                reserved = false;
                ReassignEvent::Control {
                    state: (*control.cluster_state().unwrap()).clone(),
                    live: LiveRoute::Primary(mesh.live.clone()),
                }
            }
            ReassignAction::Reserve { endpoints, .. } => {
                assert_eq!(endpoints.len(), 3);
                reserved = true;
                if mesh.churn > 0 {
                    mesh.churn -= 1;
                    let other = if mesh.churn % 2 == 0 { TGT } else { THIRD };
                    mesh.live = other.to_string();
                }
                ReassignEvent::Reserved
            }
            ReassignAction::Revalidate => ReassignEvent::Control {
                state: (*control.cluster_state().unwrap()).clone(),
                live: LiveRoute::Primary(mesh.live.clone()),
            },
            ReassignAction::Route { live, target } => ReassignEvent::Route {
                route: if normalized_move_endpoint(&live) == normalized_move_endpoint(&target) {
                    HandoffRoute::AlreadyAtTarget {
                        generation: mesh.generation,
                    }
                } else {
                    HandoffRoute::Move
                },
                generation: mesh.generation,
            },
            ReassignAction::TryStart => ReassignEvent::Started(mesh.start),
            ReassignAction::Propose { command, context } => {
                assert!(reserved);
                match propose(control, mesh, command, &context) {
                    Ok(()) => ReassignEvent::Accepted,
                    Err(error) => ReassignEvent::Failed(error),
                }
            }
            ReassignAction::Fence {
                node,
                endpoint,
                generation,
            } => {
                mesh.trace.push(format!("fence {}", node.0));
                ReassignEvent::Fence(mesh.fence(&endpoint, generation))
            }
            ReassignAction::Attest { endpoint, .. } => {
                let (fingerprint_lo, fingerprint_hi, live_count) = mesh.fingerprint(&endpoint);
                ReassignEvent::Fingerprint {
                    fingerprint_lo,
                    fingerprint_hi,
                    live_count,
                }
            }
            ReassignAction::Handoff { from, to } => {
                if mesh.handoff_fails {
                    ReassignEvent::Failed(ShardError::Remote("target is gone".to_string()))
                } else {
                    let rows = mesh.rows[&from].clone();
                    mesh.rows.insert(to, rows);
                    mesh.fence(&from, mesh.generation + 1);
                    mesh.trace.push("handoff".to_string());
                    ReassignEvent::Prepared {
                        generation: mesh.generation + 1,
                    }
                }
            }
            ReassignAction::Swap => {
                let state = control.cluster_state().unwrap();
                assert_eq!(state.assignments[0].primary, to, "routing follows the commit");
                assert!(matches!(
                    state.moves.intents[0].phase,
                    MoveIntentPhase::Committed(_)
                ));
                mesh.generation += 1;
                mesh.live = TGT.to_string();
                mesh.trace.push("swap".to_string());
                ReassignEvent::Swapped {
                    generation: mesh.generation,
                }
            }
            ReassignAction::Probe { endpoint } => {
                ReassignEvent::Fence(mesh.fence(&endpoint, 0))
            }
            ReassignAction::Finished => return reassign.finish().expect("an outcome"),
        };
        reassign = reassign.advance(event);
    }
}

#[test]
fn a_move_commits_before_live_routing_follows() {
    let (mut control, mut mesh) = scenario();
    let outcome = reassign(&mut control, &mut mesh, 0, NodeId(2)).expect("moved");
    assert_eq!(
        outcome,
        Some(ReassignOutcome::Moved {
            position: 0,
            from: NodeId(1),
            to: NodeId(2),
            generation: 1
        })
    );
    assert_eq!(
        mesh.trace,
        vec![
            "reassign_and_move: persist intent",
            "handoff",
            "reassign_and_move: persist target evidence",
            "reassign_and_move: conditional assignment commit",
            "swap",
            "reassign_and_move: finish durable move",
        ]
    );
    let state = control.cluster_state().unwrap();
    assert_eq!(state.assignments[0].primary, NodeId(2));
    assert!(state.moves.intents.is_empty());
    assert_eq!(mesh.rows[TGT], vec![11, 12]);
}

#[test]
fn a_target_that_is_already_committed_and_live_needs_nothing() {
    let (mut control, mut mesh) = scenario();
    let before = control.cluster_state().unwrap();
    let outcome = reassign(&mut control, &mut mesh, 0, NodeId(1)).expect("no change");
    assert_eq!(
        outcome,
        Some(ReassignOutcome::NoChange {
            position: 0,
            generation: 0
        })
    );
    assert!(mesh.trace.is_empty());
    assert_eq!(*control.cluster_state().unwrap(), *before);
}

#[test]
fn a_target_that_is_already_live_is_reconciled_without_a_copy() {
    let (mut control, mut mesh) = scenario();
    mesh.raw_handoff(TGT);
    mesh.add_query(13);
    let outcome = reassign(&mut control, &mut mesh, 0, NodeId(2)).expect("reconciled");
    assert_eq!(
        outcome,
        Some(ReassignOutcome::Reconciled {
            position: 0,
            from: NodeId(1),
            to: NodeId(2),
            generation: 1
        })
    );
    assert_eq!(
        mesh.trace,
        vec![
            "reassign_and_move: persist intent",
            "fence 1",
            "reassign_and_move: commit already-live target",
            "reassign_and_move: commit already-live target",
            "reassign_and_move: finish durable move",
        ]
    );
    assert_eq!(mesh.rows[TGT], vec![11, 12, 13]);
    assert_eq!(
        control.cluster_state().unwrap().assignments[0].primary,
        NodeId(2)
    );
}

#[test]
fn a_third_live_authority_is_followed_before_the_move() {
    let (mut control, mut mesh) = scenario();
    control
        .propose(ClusterStateChange::AddNode(member(3, THIRD)))
        .unwrap();
    mesh.raw_handoff(THIRD);
    mesh.add_query(13);
    let outcome = reassign(&mut control, &mut mesh, 0, NodeId(2)).expect("moved");
    assert_eq!(
        outcome,
        Some(ReassignOutcome::Moved {
            position: 0,
            from: NodeId(3),
            to: NodeId(2),
            generation: 2
        })
    );
    assert_eq!(mesh.rows[TGT], vec![11, 12, 13]);
    assert_eq!(
        mesh.trace[0],
        "reassign_and_move: persist chained-source reconciliation"
    );
    let state = control.cluster_state().unwrap();
    assert_eq!(state.assignments[0].primary, NodeId(2));
    assert_eq!(state.moves.assignment_generation(0), 3);
}

#[test]
fn a_third_live_authority_must_be_one_registered_node() {
    let (mut control, mut mesh) = scenario();
    mesh.raw_handoff(THIRD);
    let error = reassign(&mut control, &mut mesh, 0, NodeId(2)).expect_err("unregistered");
    assert_eq!(
        error.message(),
        "reassign_and_move: live source http://127.0.0.1:50053 is not a registered membership \
         endpoint; register its authoritative node before moving onward"
    );
    for id in [3, 4] {
        control
            .propose(ClusterStateChange::AddNode(member(id, THIRD)))
            .unwrap();
    }
    let error = reassign(&mut control, &mut mesh, 0, NodeId(2)).expect_err("aliased");
    assert_eq!(
        error.message(),
        "reassign_and_move: live source http://127.0.0.1:50053 aliases multiple membership nodes; \
         reconcile that logical identity explicitly before moving onward"
    );
}

#[test]
fn a_clean_failure_aborts_its_intent_and_a_fenced_one_keeps_it() {
    let (mut control, mut mesh) = scenario();
    mesh.handoff_fails = true;
    let error = reassign(&mut control, &mut mesh, 0, NodeId(2)).expect_err("failed");
    assert_eq!(error, ShardError::Remote("target is gone".to_string()));
    assert!(control.cluster_state().unwrap().moves.intents.is_empty());
    assert_eq!(
        mesh.trace.last().unwrap(),
        "reassign_and_move: abort clean preparation"
    );

    mesh.fence(SRC, 1);
    let error = reassign(&mut control, &mut mesh, 0, NodeId(2)).expect_err("failed");
    assert_eq!(error.message(), "target is gone");
    assert_eq!(control.cluster_state().unwrap().moves.intents.len(), 1);
}

#[test]
fn a_failure_after_the_target_was_prepared_keeps_the_intent() {
    let mut reassign = Reassign::reassign_and_move(0, NodeId(2)).ok().unwrap();
    let (control, mesh) = scenario();
    let read = || ReassignEvent::Control {
        state: (*control.cluster_state().unwrap()).clone(),
        live: LiveRoute::Primary(mesh.live.clone()),
    };
    for event in [
        read(),
        ReassignEvent::Reserved,
        read(),
        ReassignEvent::Route {
            route: HandoffRoute::Move,
            generation: 0,
        },
        ReassignEvent::Started(true),
        ReassignEvent::Accepted,
        ReassignEvent::Prepared { generation: 1 },
        ReassignEvent::Failed(ShardError::Remote("no fingerprint".to_string())),
    ] {
        reassign = reassign.advance(event);
    }
    assert_eq!(reassign.action(), ReassignAction::Finished);
    assert_eq!(
        reassign.finish(),
        Some(Err(ShardError::Remote("no fingerprint".to_string())))
    );
}

#[test]
fn a_declined_start_touches_nothing() {
    let (mut control, mut mesh) = scenario();
    let before = control.cluster_state().unwrap();
    mesh.start = false;
    assert_eq!(
        reassign(&mut control, &mut mesh, 0, NodeId(2)).expect("declined"),
        None
    );
    assert!(mesh.trace.is_empty());
    assert_eq!(*control.cluster_state().unwrap(), *before);

    let waiting = Reassign::reassign_and_move(0, NodeId(2)).ok().unwrap();
    let waiting = waiting.advance(ReassignEvent::Control {
        state: (*before).clone(),
        live: LiveRoute::Primary(SRC.to_string()),
    });
    assert!(matches!(
        waiting.action(),
        ReassignAction::Reserve { bounded: true, .. }
    ));
    assert_eq!(
        waiting.advance(ReassignEvent::TimedOut).finish(),
        Some(Ok(None))
    );
}

#[test]
fn a_map_that_keeps_changing_ends_the_plan() {
    let (mut control, mut mesh) = scenario();
    mesh.churn = PLAN_ATTEMPTS;
    let error = reassign(&mut control, &mut mesh, 0, NodeId(2)).expect_err("churning");
    assert_eq!(
        error.message(),
        "reassign_and_move: the committed assignment or live primary for shard position 0 kept \
         changing while planning (4 attempts); retry once routing stops churning"
    );
    let (mut control, mut mesh) = scenario();
    mesh.churn = PLAN_ATTEMPTS - 1;
    assert!(reassign(&mut control, &mut mesh, 0, NodeId(2)).is_ok());
}

#[test]
fn an_impossible_move_says_why() {
    let (control, _) = scenario();
    let state = (*control.cluster_state().unwrap()).clone();
    let plan = |state: &ClusterState, position: usize, to: u64, live: LiveRoute| {
        let reassign = Reassign::reassign_and_move(position, NodeId(to)).ok().unwrap();
        let reassign = reassign.advance(ReassignEvent::Control {
            state: state.clone(),
            live,
        });
        match reassign.finish() {
            Some(Err(error)) => error,
            other => panic!("{other:?}"),
        }
    };
    let live = || LiveRoute::Primary(SRC.to_string());
    assert_eq!(
        plan(&state, 7, 2, live()).message(),
        "reassign_and_move: no committed assignment for shard position 7"
    );
    assert_eq!(
        plan(&state, 0, 9, live()).message(),
        "reassign_and_move: node 9 has no registered endpoint (addr)"
    );
    assert_eq!(
        plan(&state, 0, 2, LiveRoute::NotCapable).message(),
        "reassign_and_move: shard position 0 is not handoff-capable (the cluster was not built \
         via connect_remote/connect_replicated)"
    );
    assert_eq!(
        plan(&state, 0, 2, LiveRoute::NoPrimary).message(),
        "reassign_and_move: shard position 0 has no live remote primary"
    );
    let mut replicated = state.clone();
    replicated.assignments[0].replicas = vec![NodeId(2), NodeId(3)];
    assert_eq!(
        plan(&replicated, 0, 2, live()),
        ShardError::Config(ConfigFault::Replicated {
            position: 0,
            replicas: 2
        })
    );
    assert_eq!(
        plan(&replicated, 0, 2, live()).message(),
        "reassign_and_move: shard position 0 has 2 committed replica(s); a single-target move \
         would de-replicate it — use reassign_group_and_move (or rebalance_and_move / reconcile, \
         which dispatch group moves) instead (ADR-094)"
    );
    let error = Reassign::reassign_and_move(1 << 32, NodeId(2))
        .err()
        .expect("too large");
    assert_eq!(
        error.message(),
        "reassign_and_move: shard position 4294967296 exceeds the u32 wire/control limit"
    );

    let waiting = Reassign::reassign_and_move(0, NodeId(2)).ok().unwrap();
    let lost = waiting
        .advance(ReassignEvent::Control {
            state: state.clone(),
            live: live(),
        })
        .advance(ReassignEvent::Reserved)
        .advance(ReassignEvent::Control {
            state,
            live: LiveRoute::NoPrimary,
        });
    assert_eq!(
        lost.finish().unwrap().unwrap_err().message(),
        "reassign_and_move: shard position 0 lost its live remote primary"
    );
}

#[test]
fn an_unresolved_intent_or_an_unfollowed_map_is_not_repaired_silently() {
    let (mut control, mut mesh) = scenario();
    let move_intent = intent(&control.cluster_state().unwrap());
    begin(&mut control, &move_intent);
    let error = reassign(&mut control, &mut mesh, 0, NodeId(1)).expect_err("unresolved");
    assert_eq!(
        error,
        ShardError::ControlPlane(ControlFault::UnresolvedIntent { position: 0 })
    );
    assert!(error.message().contains("unresolved committed move intent"));

    let (control, _) = scenario();
    let read = || ReassignEvent::Control {
        state: (*control.cluster_state().unwrap()).clone(),
        live: LiveRoute::Primary(SRC.to_string()),
    };
    let mut reassign = Reassign::reassign_and_move(0, NodeId(1)).ok().unwrap();
    for event in [
        read(),
        ReassignEvent::Reserved,
        read(),
        ReassignEvent::Route {
            route: HandoffRoute::Move,
            generation: 0,
        },
        ReassignEvent::Started(true),
    ] {
        reassign = reassign.advance(event);
    }
    let error = reassign.finish().unwrap().unwrap_err();
    assert_eq!(
        error.message(),
        "reassign_and_move: shard position 0 still routes to http://127.0.0.1:50051 after durable \
         source reconciliation; refusing an unrecorded repair"
    );
}

// ---- Planning ----------------------------------------------------------------------------------

#[test]
fn an_operation_id_is_fnv_over_the_whole_predicate() {
    let (control, _) = scenario();
    let state = control.cluster_state().unwrap();
    let base = intent(&state);
    let mut hash = 0xcbf2_9ce4_8422_2325u64;
    let mut bytes: Vec<u8> = Vec::new();
    // Version, position, assignment, placement, live and fence generation, authority.
    for word in [1u64, 0, 1, 1, 1, 1, 2] {
        bytes.extend(word.to_le_bytes());
    }
    for (position, primary) in [(0u64, 1u64), (0, 2)] {
        for word in [position, primary, 0] {
            bytes.extend(word.to_le_bytes());
        }
    }
    for (node, endpoint) in [(1u64, SRC), (2, TGT)] {
        bytes.extend(node.to_le_bytes());
        bytes.extend(endpoint.as_bytes());
    }
    for byte in bytes {
        hash ^= u64::from(byte);
        hash = hash.wrapping_mul(0x100_0000_01b3);
    }
    assert_eq!(operation_id(&base), hash);

    let mut seen = vec![hash];
    let mut others: Vec<MoveIntent> = Vec::new();
    for change in 0..8 {
        let mut other = base.clone();
        match change {
            0 => other.position = 1,
            1 => other.expected_assignment_generation = 2,
            2 => other.placement_generation = 2,
            3 => other.live_generation = 2,
            4 => other.source_fence_generation = 2,
            5 => other.initial_authority = MoveInitialAuthority::Expected,
            6 => other.desired.replicas = vec![NodeId(3)],
            _ => other.members[1].endpoint = THIRD.to_string(),
        }
        others.push(other);
    }
    for other in others {
        let id = operation_id(&other);
        assert!(!seen.contains(&id));
        seen.push(id);
    }
    let mut ready = base.clone();
    ready.phase = MoveIntentPhase::Ready(target_evidence(&Mesh::new()));
    ready.operation_id = 77;
    assert_eq!(
        operation_id(&ready),
        hash,
        "neither phase nor id is mixed in"
    );
}

#[test]
fn a_planned_intent_records_normalized_identities_and_can_begin() {
    let mut control = InMemoryControlPlane::single_node(2, 64, 0);
    for (id, addr) in [(1, "HTTP://Node-A:1//"), (2, "http://node-b:2/")] {
        control
            .propose(ClusterStateChange::AddNode(member(id, addr)))
            .unwrap();
    }
    let expected = ShardAssignment {
        position: 1,
        primary: NodeId(2),
        replicas: vec![],
    };
    let desired = ShardAssignment {
        position: 1,
        primary: NodeId(1),
        replicas: vec![NodeId(2)],
    };
    control
        .propose(ClusterStateChange::AssignShard(expected.clone()))
        .unwrap();
    let state = control.cluster_state().unwrap();
    let planned = build_intent(
        &state,
        expected.clone(),
        desired.clone(),
        5,
        5,
        MoveInitialAuthority::Expected,
    )
    .expect("planned");
    assert_eq!(planned.position, 1);
    assert_eq!(planned.expected_assignment_generation, 1);
    assert_eq!(planned.operation_id, operation_id(&planned));
    assert_eq!(
        planned
            .members
            .iter()
            .map(|m| (m.node.0, m.endpoint.as_str()))
            .collect::<Vec<_>>(),
        vec![(1, "http://node-a:1"), (2, "http://node-b:2")]
    );
    begin(&mut control, &planned);

    let unregistered = ShardAssignment {
        position: 1,
        primary: NodeId(9),
        replicas: vec![],
    };
    let error = build_intent(
        &state,
        expected,
        unregistered,
        5,
        5,
        MoveInitialAuthority::Expected,
    )
    .expect_err("no endpoint");
    assert_eq!(
        error.message(),
        "durable move: node 9 has no registered endpoint"
    );
}

#[test]
fn a_live_authority_is_fenced_unless_it_is_the_same_slot() {
    let (control, _) = scenario();
    let state = control.cluster_state().unwrap();
    let expected = state.assignments[0].clone();
    assert_eq!(
        plan_live_authority_fence(&state, &expected, "HTTP://127.0.0.1:50051/", 7),
        Ok(0)
    );
    assert_eq!(plan_live_authority_fence(&state, &expected, TGT, 7), Ok(7));
    assert_eq!(plan_live_authority_fence(&state, &expected, TGT, 0), Ok(1));
    let missing = ShardAssignment {
        position: 0,
        primary: NodeId(0),
        replicas: vec![],
    };
    assert!(plan_live_authority_fence(&state, &missing, TGT, 7).is_err());
}

#[test]
fn evidence_is_in_the_order_of_its_nodes() {
    let evidence = recovery_evidence(
        9,
        vec![
            member_evidence(NodeId(3), 1, 2, 3),
            member_evidence(NodeId(1), 4, 5, 6),
        ],
    );
    assert_eq!(evidence.live_generation, 9);
    assert_eq!(evidence.members[0].node, NodeId(1));
    assert_eq!(evidence.members[0].live_count, 6);
    assert_eq!(evidence.members[1].fingerprint_hi, 2);
}

#[test]
fn a_lost_answer_is_retried_and_a_refusal_is_final() {
    let lost = || Err::<MoveProposalResult, ControlError>(ControlError::NoQuorum);
    let answered = |outcome| {
        Ok::<MoveProposalResult, ControlError>(MoveProposalResult {
            version: StateVersion(1),
            outcome,
        })
    };
    assert_eq!(after_attempt(0, lost(), 5, "x"), Attempt::Retry);
    assert_eq!(after_attempt(1, lost(), 5, "x"), Attempt::Retry);
    assert_eq!(
        after_attempt(2, lost(), 5, "x"),
        Attempt::Failed(ShardError::from(ControlError::NoQuorum))
    );
    for outcome in [
        MoveCommandOutcome::Applied,
        MoveCommandOutcome::AlreadyApplied,
    ] {
        assert_eq!(
            after_attempt(0, answered(outcome), 5, "x"),
            Attempt::Accepted
        );
    }
    let message = |attempt: Attempt| match attempt {
        Attempt::Failed(error) => error.message(),
        other => panic!("{other:?}"),
    };
    assert_eq!(
        message(after_attempt(
            0,
            answered(MoveCommandOutcome::Conflict),
            5,
            "ctx"
        )),
        "ctx: durable move 5 lost its conditional predicate"
    );
    assert_eq!(
        message(after_attempt(
            0,
            answered(MoveCommandOutcome::Invalid),
            10,
            "ctx"
        )),
        "ctx: durable move 10 was rejected as invalid"
    );
}

#[test]
fn endpoints_are_compared_by_their_identity() {
    assert_eq!(
        normalized_move_endpoint("HTTPS://Host:80/Path///"),
        "https://host:80/path"
    );
    assert_eq!(normalized_move_endpoint("///"), "");
    assert_eq!(normalized_move_endpoint("\u{c4}/B"), "\u{c4}/b");
    let once = normalized_move_endpoint("A//B//");
    assert_eq!(normalized_move_endpoint(&once), once);
}

// ---- Rebalance -----------------------------------------------------------------------------------

fn placed(position: u32) -> (u32, Result<ReassignOutcome, ShardError>) {
    (
        position,
        Ok(ReassignOutcome::Moved {
            position,
            from: NodeId(1),
            to: NodeId(2),
            generation: 1,
        }),
    )
}

#[test]
fn a_sweep_reports_positions_in_order() {
    let mut sweep = RebalanceSweep::rebalance_and_move_with(vec![vec![5, 1], vec![3]]);
    assert_eq!(sweep.current(), Some(&vec![5, 1]));
    sweep.absorb(vec![placed(1), placed(5)]);
    assert_eq!(sweep.current(), Some(&vec![3]));
    sweep.absorb(vec![(
        3,
        Ok(ReassignOutcome::NoChange {
            position: 3,
            generation: 1,
        }),
    )]);
    assert_eq!(sweep.current(), None);
    assert_eq!(
        sweep.finish(),
        RebalanceMoveReport {
            moved: vec![1, 5],
            failed: None,
            not_attempted: vec![],
        }
    );
}

#[test]
fn a_sweep_stops_after_the_first_failing_wave() {
    let mut sweep =
        RebalanceSweep::rebalance_and_move_with(vec![vec![4], vec![2, 6, 7, 9], vec![8, 0]]);
    sweep.absorb(vec![placed(4)]);
    sweep.absorb(vec![
        (
            2,
            Ok(ReassignOutcome::MovedButNotCommitted {
                position: 2,
                from: NodeId(1),
                to: NodeId(2),
                generation: 1,
                moved: true,
            }),
        ),
        placed(6),
        (
            7,
            Ok(ReassignOutcome::Reconciled {
                position: 7,
                from: NodeId(1),
                to: NodeId(2),
                generation: 1,
            }),
        ),
        (9, Err(ShardError::DeadlineExceeded)),
    ]);
    assert_eq!(sweep.current(), None);
    let report = sweep.finish();
    assert_eq!(report.moved, vec![4, 6, 7]);
    assert_eq!(report.failed.map(|(position, _)| position), Some(2));
    assert_eq!(report.not_attempted, vec![0, 8, 9]);
}

#[test]
fn a_sweep_names_its_lowest_failure_and_every_position_once() {
    let failure = || Err(ShardError::DeadlineExceeded);
    let waves = vec![vec![6, 1], vec![3, 8, 5], vec![9], vec![2, 0]];
    let mut sweep = RebalanceSweep::rebalance_and_move_with(waves.clone());
    sweep.absorb(vec![placed(1), placed(6)]);
    sweep.absorb(vec![placed(3), (5, failure()), (8, failure())]);
    assert_eq!(sweep.current(), None);
    let report = sweep.finish();
    assert_eq!(
        report,
        RebalanceMoveReport {
            moved: vec![1, 3, 6],
            failed: Some((5, "deadline exceeded".to_string())),
            not_attempted: vec![0, 2, 8, 9],
        }
    );
    assert_eq!(report.clone(), report);
    let mut named: Vec<u32> = report.moved.clone();
    named.extend(report.failed.map(|(position, _)| position));
    named.extend(report.not_attempted);
    named.sort_unstable();
    let mut all: Vec<u32> = waves.into_iter().flatten().collect();
    all.sort_unstable();
    assert_eq!(named, all);
}

#[test]
fn a_move_without_its_commit_is_a_failure() {
    let mut sweep = RebalanceSweep::rebalance_and_move_with(vec![vec![2]]);
    sweep.absorb(vec![(
        2,
        Ok(ReassignOutcome::MovedButNotCommitted {
            position: 2,
            from: NodeId(1),
            to: NodeId(2),
            generation: 1,
            moved: true,
        }),
    )]);
    let (position, message) = sweep.finish().failed.expect("failed");
    assert_eq!(position, 2);
    assert!(message.starts_with("data moved but committing the new owner failed"));
    assert!(message.ends_with("re-run to resume"));
}

#[test]
fn a_cluster_without_nodes_cannot_be_rebalanced() {
    let mut control = InMemoryControlPlane::single_node(1, 64, 0);
    assert!(rebalance_preflight(&control.cluster_state().unwrap()).is_ok());
    control
        .propose(ClusterStateChange::RemoveNode(NodeId(0)))
        .unwrap();
    let error = rebalance_preflight(&control.cluster_state().unwrap()).expect_err("no nodes");
    assert_eq!(
        error.message(),
        "rebalance_and_move: the cluster has no nodes to place shards on"
    );
}
