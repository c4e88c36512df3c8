use reverse_rusty::control::{ControlPlane, InMemoryControlPlane};
use reverse_rusty::document::{
    ClusterStateChange, MoveCommand, MoveCommandOutcome, MoveInitialAuthority, MoveIntent,
    MoveIntentPhase, MoveMemberEvidence, MoveMemberIdentity, MoveRecoveryEvidence, NodeDescriptor,
    NodeId, NodeRole, ShardAssignment, StateVersion, MOVE_CONTROL_FORMAT_CURRENT,
    MOVE_CONTROL_FORMAT_LEGACY, MOVE_INTENT_VERSION,
};
use reverse_rusty::error::{ControlError, ControlFault, ShardError};
use reverse_rusty::wire::{EpochWire, WireFault};

fn node(id: u64, role: NodeRole) -> NodeDescriptor {
    NodeDescriptor {
        id: NodeId(id),
        addr: Some(format!("http://127.0.0.1:{}", 50050 + id)),
        role,
    }
}

#[test]
fn single_node_is_one_manager_owning_every_position() {
    let cp = InMemoryControlPlane::single_node(4, 128, 0xABCD);
    let st = cp.cluster_state().unwrap();
    assert_eq!(st.epoch, 0);
    assert_eq!(st.num_shards, 4);
    assert_eq!(st.nodes.len(), 1);
    assert_eq!(st.voters, vec![NodeId(0)]);
    assert_eq!(st.assignments.len(), 4);
    assert!(st
        .assignments
        .iter()
        .all(|a| a.primary == NodeId(0) && a.replicas.is_empty()));
    assert_eq!(cp.leader().unwrap(), Some(NodeId(0)));
}

#[test]
fn single_node_document_is_exact() {
    let cp = InMemoryControlPlane::single_node(2, 128, 0xABCD);
    let st = cp.cluster_state().unwrap();
    assert_eq!(st.vnodes, 128);
    assert_eq!(st.dict_fingerprint, 0xABCD);
    assert_eq!(st.model_version, 0);
    assert_eq!(st.placement_generation, 1);
    assert_eq!(st.nodes[0].addr, None);
    assert_eq!(st.nodes[0].role, NodeRole::Manager);
    assert_eq!(st.moves.format_version, MOVE_CONTROL_FORMAT_LEGACY);
    assert!(st.moves.intents.is_empty());
    assert_eq!(
        st.assignments.iter().map(|a| a.position).collect::<Vec<_>>(),
        vec![0, 1]
    );
    let at = InMemoryControlPlane::single_node_with_generation(1, 64, 7, 9);
    assert_eq!(at.cluster_state().unwrap().placement_generation, 9);
}

#[test]
fn add_node_is_idempotent_and_sorted_and_bumps_version() {
    let mut cp = InMemoryControlPlane::single_node(1, 64, 0);
    let v0 = cp.version().unwrap();
    cp.propose(ClusterStateChange::AddNode(node(2, NodeRole::Data)))
        .unwrap();
    let v1 = cp
        .propose(ClusterStateChange::AddNode(node(1, NodeRole::Data)))
        .unwrap();
    assert!(v1 > v0, "each commit advances the version");
    cp.propose(ClusterStateChange::AddNode(node(1, NodeRole::Manager)))
        .unwrap();
    let st = cp.cluster_state().unwrap();
    let ids: Vec<u64> = st.nodes.iter().map(|n| n.id.0).collect();
    assert_eq!(ids, vec![0, 1, 2], "no dups, sorted by id");
    assert_eq!(
        st.nodes.iter().find(|n| n.id == NodeId(1)).unwrap().role,
        NodeRole::Manager,
        "the last add wins"
    );
}

#[test]
fn every_commit_advances_the_version_by_one() {
    let mut cp = InMemoryControlPlane::single_node(1, 64, 0);
    assert_eq!(cp.version().unwrap(), StateVersion(0));
    assert_eq!(
        cp.propose(ClusterStateChange::RemoveNode(NodeId(9))).unwrap(),
        StateVersion(1)
    );
    assert_eq!(
        cp.change_membership(vec![NodeId(4)]).unwrap(),
        StateVersion(2)
    );
    let result = cp
        .propose_move(MoveCommand::Commit { operation_id: 5 })
        .unwrap();
    assert_eq!(result.version, StateVersion(3));
    assert_eq!(result.outcome, MoveCommandOutcome::Conflict);
    assert_eq!(cp.version().unwrap(), StateVersion(3));
}

#[test]
fn remove_node_is_idempotent() {
    let mut cp = InMemoryControlPlane::single_node(1, 64, 0);
    cp.propose(ClusterStateChange::AddNode(node(5, NodeRole::Data)))
        .unwrap();
    cp.propose(ClusterStateChange::RemoveNode(NodeId(5)))
        .unwrap();
    cp.propose(ClusterStateChange::RemoveNode(NodeId(5)))
        .unwrap();
    assert!(cp
        .cluster_state()
        .unwrap()
        .nodes
        .iter()
        .all(|n| n.id != NodeId(5)));
}

#[test]
fn assign_shard_replaces_position_kept_sorted() {
    let mut cp = InMemoryControlPlane::single_node(3, 64, 0);
    cp.propose(ClusterStateChange::AssignShard(ShardAssignment {
        position: 2,
        primary: NodeId(7),
        replicas: vec![NodeId(8)],
    }))
    .unwrap();
    cp.propose(ClusterStateChange::AssignShard(ShardAssignment {
        position: 2,
        primary: NodeId(9),
        replicas: vec![],
    }))
    .unwrap();
    let st = cp.cluster_state().unwrap();
    let positions: Vec<u32> = st.assignments.iter().map(|a| a.position).collect();
    assert_eq!(positions, vec![0, 1, 2], "one entry per position, sorted");
    let p2 = st.assignments.iter().find(|a| a.position == 2).unwrap();
    assert_eq!(p2.primary, NodeId(9));
    assert!(p2.replicas.is_empty(), "the last assignment wins");
    assert_eq!(st.moves.assignment_generation(2), 2);
    assert_eq!(st.moves.assignment_generation(0), 0);
}

#[test]
fn bump_model_version_advances_fingerprint_and_counter() {
    let mut cp = InMemoryControlPlane::single_node(1, 64, 0x1111);
    cp.propose(ClusterStateChange::BumpModelVersion {
        dict_fingerprint: 0x2222,
    })
    .unwrap();
    let st = cp.cluster_state().unwrap();
    assert_eq!(st.dict_fingerprint, 0x2222);
    assert_eq!(st.model_version, 1);
    assert_eq!(st.placement_generation, 2);
}

#[test]
fn resize_grows_with_defaults_and_prunes_on_shrink() {
    let mut cp = InMemoryControlPlane::single_node(2, 64, 0);
    let placed = ShardAssignment {
        position: 1,
        primary: NodeId(7),
        replicas: vec![NodeId(8)],
    };
    cp.propose(ClusterStateChange::AssignShard(placed.clone()))
        .unwrap();
    cp.propose(ClusterStateChange::SetShardCount { num_shards: 4 })
        .unwrap();
    let st = cp.cluster_state().unwrap();
    assert_eq!(st.num_shards, 4);
    assert_eq!(
        st.assignments.iter().map(|a| a.position).collect::<Vec<_>>(),
        vec![0, 1, 2, 3]
    );
    assert_eq!(st.assignments[1], placed);
    assert_eq!(st.assignments[3].primary, NodeId(0));
    assert!(st.assignments[3].replicas.is_empty());
    cp.propose(ClusterStateChange::SetShardCount { num_shards: 1 })
        .unwrap();
    let st = cp.cluster_state().unwrap();
    assert_eq!(st.assignments.len(), 1);
    assert_eq!(st.moves.assignment_generation(1), 0);
    assert_eq!(st.placement_generation, 3);
}

#[test]
fn change_membership_sorts_dedups_and_is_distinct_from_propose() {
    let mut cp = InMemoryControlPlane::single_node(1, 64, 0);
    cp.change_membership(vec![NodeId(3), NodeId(1), NodeId(3), NodeId(2)])
        .unwrap();
    assert_eq!(
        cp.cluster_state().unwrap().voters,
        vec![NodeId(1), NodeId(2), NodeId(3)]
    );
    assert_eq!(cp.leader().unwrap(), Some(NodeId(1)));
    cp.change_membership(vec![]).unwrap();
    assert_eq!(cp.leader().unwrap(), None);
}

#[test]
fn proposals_are_deterministic_regardless_of_order() {
    let mk = || InMemoryControlPlane::single_node(2, 64, 0);
    let (mut a, mut b) = (mk(), mk());
    let changes = [
        ClusterStateChange::AddNode(node(3, NodeRole::Data)),
        ClusterStateChange::AddNode(node(1, NodeRole::Data)),
        ClusterStateChange::AssignShard(ShardAssignment {
            position: 1,
            primary: NodeId(3),
            replicas: vec![NodeId(1)],
        }),
    ];
    for c in &changes {
        a.propose(c.clone()).unwrap();
    }
    for c in changes.iter().rev() {
        b.propose(c.clone()).unwrap();
    }
    let (sa, sb) = (a.cluster_state().unwrap(), b.cluster_state().unwrap());
    assert_eq!(sa.nodes, sb.nodes);
    assert_eq!(sa.assignments, sb.assignments);
    assert_eq!(sa.epoch, sb.epoch);
    assert_eq!(*sa, *sb);
}

#[test]
fn independent_changes_give_one_document_in_every_order() {
    let assign = |position: u32, primary: u64| {
        ClusterStateChange::AssignShard(ShardAssignment {
            position,
            primary: NodeId(primary),
            replicas: vec![],
        })
    };
    let changes = [
        ClusterStateChange::AddNode(node(4, NodeRole::Data)),
        assign(1, 4),
        ClusterStateChange::AddNode(node(2, NodeRole::Data)),
        assign(0, 2),
    ];
    let replay = |order: [usize; 4]| {
        let mut cp = InMemoryControlPlane::single_node(2, 64, 0);
        for i in order {
            cp.propose(changes[i].clone()).unwrap();
        }
        cp.cluster_state().unwrap()
    };
    let expected = replay([0, 1, 2, 3]);
    let mut orders = 0;
    for a in 0..4 {
        for b in 0..4 {
            for c in 0..4 {
                for d in 0..4 {
                    let order = [a, b, c, d];
                    if (0..4).all(|i| order.contains(&i)) {
                        assert_eq!(*replay(order), *expected);
                        orders += 1;
                    }
                }
            }
        }
    }
    assert_eq!(orders, 24);
}

#[test]
fn broken_backend_fails_closed() {
    let mut cp = InMemoryControlPlane::single_node(1, 64, 0);
    let before = cp.cluster_state().unwrap();
    cp.break_proposals_for_test();
    assert!(matches!(
        cp.propose(ClusterStateChange::AddNode(node(1, NodeRole::Data))),
        Err(ControlError::Backend(_))
    ));
    assert_eq!(*cp.cluster_state().unwrap(), *before);
    assert!(cp.change_membership(vec![NodeId(1)]).is_err());
    assert!(cp
        .propose_move(MoveCommand::Abort { operation_id: 1 })
        .is_err());
    assert_eq!(*cp.cluster_state().unwrap(), *before);
}

#[test]
fn control_error_folds_into_shard_error() {
    let e: ShardError = ControlError::NoQuorum.into();
    assert!(matches!(e, ShardError::ControlPlane(_)));
    assert_eq!(
        e,
        ShardError::ControlPlane(ControlFault::Control(ControlError::NoQuorum))
    );
    assert_eq!(
        e.message(),
        "control-plane proposal could not reach a quorum"
    );
}

#[test]
fn control_errors_have_exact_messages() {
    let known = ControlError::ForwardToLeader {
        leader: Some(NodeId(12)),
        addr: Some("http://a\"b".to_string()),
    };
    assert_eq!(
        known.message(),
        "not the control-plane leader; forward to Some(NodeId(12)) at Some(\"http://a\\\"b\")"
    );
    let unknown = ControlError::ForwardToLeader {
        leader: None,
        addr: None,
    };
    assert_eq!(
        unknown.message(),
        "not the control-plane leader; forward to None at None"
    );
    assert_eq!(
        ControlError::NotLeader.message(),
        "this node is not the control-plane leader (leader unknown)"
    );
    assert_eq!(
        ControlError::Backend("disk".to_string()).message(),
        "control-plane backend error: disk"
    );
}

fn move_control_with_target(target: u64, operation_id: u64) -> (InMemoryControlPlane, MoveIntent) {
    let mut cp = InMemoryControlPlane::single_node(1, 64, 0);
    for id in [1, 2, 3] {
        cp.propose(ClusterStateChange::AddNode(node(id, NodeRole::Data)))
            .unwrap();
    }
    let expected = ShardAssignment {
        position: 0,
        primary: NodeId(1),
        replicas: Vec::new(),
    };
    cp.propose(ClusterStateChange::AssignShard(expected.clone()))
        .unwrap();
    let state = cp.cluster_state().unwrap();
    let desired = ShardAssignment {
        position: 0,
        primary: NodeId(target),
        replicas: Vec::new(),
    };
    let members = [1, target]
        .into_iter()
        .map(|id| MoveMemberIdentity {
            node: NodeId(id),
            endpoint: format!("http://127.0.0.1:{}", 50050 + id),
        })
        .collect();
    let intent = MoveIntent {
        intent_version: MOVE_INTENT_VERSION,
        operation_id,
        position: 0,
        expected_assignment_generation: state.moves.assignment_generation(0),
        placement_generation: state.placement_generation,
        expected,
        desired,
        members,
        live_generation: 17,
        source_fence_generation: 17,
        initial_authority: MoveInitialAuthority::Expected,
        phase: MoveIntentPhase::Preparing,
    };
    drop(state);
    (cp, intent)
}

fn recovery_evidence(target: u64) -> MoveRecoveryEvidence {
    MoveRecoveryEvidence {
        live_generation: 17,
        members: vec![MoveMemberEvidence {
            node: NodeId(target),
            fingerprint_lo: 11,
            fingerprint_hi: 22,
            live_count: 3,
        }],
    }
}

fn outcome(cp: &mut InMemoryControlPlane, command: MoveCommand) -> MoveCommandOutcome {
    cp.propose_move(command).unwrap().outcome
}

#[test]
fn durable_move_is_idempotent_and_commits_assignment_conditionally() {
    let (mut cp, intent) = move_control_with_target(2, 41);
    assert_eq!(
        cp.propose_move(MoveCommand::Begin(intent.clone()))
            .unwrap()
            .outcome,
        MoveCommandOutcome::Applied
    );
    assert_eq!(
        cp.propose_move(MoveCommand::Begin(intent.clone()))
            .unwrap()
            .outcome,
        MoveCommandOutcome::AlreadyApplied
    );

    let evidence = recovery_evidence(2);
    assert_eq!(
        cp.propose_move(MoveCommand::MarkReady {
            operation_id: 41,
            evidence: evidence.clone(),
        })
        .unwrap()
        .outcome,
        MoveCommandOutcome::Applied
    );
    assert_eq!(
        cp.propose_move(MoveCommand::Begin(intent.clone()))
            .unwrap()
            .outcome,
        MoveCommandOutcome::AlreadyApplied,
        "Begin retries must remain idempotent after the phase advances"
    );
    assert_eq!(
        cp.propose_move(MoveCommand::Commit { operation_id: 41 })
            .unwrap()
            .outcome,
        MoveCommandOutcome::Applied
    );
    assert_eq!(
        cp.propose_move(MoveCommand::Commit { operation_id: 41 })
            .unwrap()
            .outcome,
        MoveCommandOutcome::AlreadyApplied
    );
    assert_eq!(
        cp.propose_move(MoveCommand::Begin(intent.clone()))
            .unwrap()
            .outcome,
        MoveCommandOutcome::AlreadyApplied,
        "a lost Commit response must not make the first Begin conflict"
    );
    let state = cp.cluster_state().unwrap();
    assert_eq!(state.assignments, vec![intent.desired]);
    assert_eq!(state.moves.assignment_generation(0), 2);
    assert!(matches!(
        state.moves.intents[0].phase,
        MoveIntentPhase::Committed(ref stored) if stored == &evidence
    ));
    assert_eq!(
        state.moves.intents[0].recovery_evidence(),
        Some(&evidence)
    );
    drop(state);

    assert_eq!(
        cp.propose_move(MoveCommand::Finish { operation_id: 41 })
            .unwrap()
            .outcome,
        MoveCommandOutcome::Applied
    );
    assert!(cp.cluster_state().unwrap().moves.intents.is_empty());
    assert_eq!(
        outcome(&mut cp, MoveCommand::Finish { operation_id: 41 }),
        MoveCommandOutcome::AlreadyApplied
    );
}

#[test]
fn assignment_generation_invalidates_a_stale_move() {
    let (mut cp, intent) = move_control_with_target(2, 42);
    cp.propose(ClusterStateChange::AssignShard(intent.expected.clone()))
        .unwrap();
    assert_eq!(
        cp.propose_move(MoveCommand::Begin(intent)).unwrap().outcome,
        MoveCommandOutcome::Conflict
    );
    assert!(cp.cluster_state().unwrap().moves.intents.is_empty());
}

#[test]
fn of_two_begins_for_one_position_one_wins_in_either_order() {
    for first_goes_first in [true, false] {
        let (mut cp, first) = move_control_with_target(2, 51);
        let mut second = first.clone();
        second.operation_id = 52;
        second.desired.primary = NodeId(3);
        second.members[1] = MoveMemberIdentity {
            node: NodeId(3),
            endpoint: "http://127.0.0.1:50053".into(),
        };
        let (a, b) = if first_goes_first {
            (first, second)
        } else {
            (second, first)
        };
        assert_eq!(
            outcome(&mut cp, MoveCommand::Begin(a)),
            MoveCommandOutcome::Applied
        );
        assert_eq!(
            outcome(&mut cp, MoveCommand::Begin(b)),
            MoveCommandOutcome::Conflict
        );
        assert_eq!(cp.cluster_state().unwrap().moves.intents.len(), 1);
    }
}

#[test]
fn move_state_uses_a_fail_loud_epoch_encoding_after_upgrade() {
    let (mut cp, _) = move_control_with_target(2, 61);
    let legacy = cp.cluster_state().unwrap().to_wire();
    assert!(matches!(legacy.epoch, EpochWire::Legacy(_)));

    let result = cp
        .propose_move(MoveCommand::Abort { operation_id: 999 })
        .unwrap();
    assert_eq!(result.outcome, MoveCommandOutcome::AlreadyApplied);
    let current = cp.cluster_state().unwrap().to_wire();
    assert!(
        !matches!(current.epoch, EpochWire::Legacy(_)),
        "an old binary must reject a state that has observed the move protocol"
    );
    let round_trip = current.into_state().unwrap();
    assert_eq!(round_trip.moves.format_version, MOVE_CONTROL_FORMAT_CURRENT);
    assert_eq!(round_trip, *cp.cluster_state().unwrap());
}

#[test]
fn placement_bound_move_schema_rejects_the_predecessor_format() {
    let (mut cp, intent) = move_control_with_target(2, 610);
    assert_eq!(
        cp.propose_move(MoveCommand::Begin(intent.clone()))
            .unwrap()
            .outcome,
        MoveCommandOutcome::Applied
    );
    let state = cp.cluster_state().unwrap();
    for version in [2, 3, 5] {
        let mut predecessor = state.to_wire();
        predecessor.epoch = EpochWire::Current {
            value: state.epoch,
            control_format_version: version,
        };
        predecessor.moves.format_version = version;
        let error = predecessor.into_state().unwrap_err();
        assert_eq!(error, WireFault::UnsupportedFormat(version));
        assert!(error
            .message()
            .contains(&format!("unsupported move control format {version}")));
    }
    let mut mixed = state.to_wire();
    mixed.epoch = EpochWire::Legacy(state.epoch);
    let error = mixed.into_state().unwrap_err();
    assert_eq!(error, WireFault::LegacyEpochWithMoveState);
    assert_eq!(
        error.message(),
        "legacy cluster-state epoch carries non-legacy move state"
    );
}

#[test]
fn generic_propose_refuses_to_hide_a_move_outcome() {
    let (mut cp, _) = move_control_with_target(2, 62);
    let before = cp.cluster_state().unwrap();
    assert!(matches!(
        cp.propose(ClusterStateChange::Move(MoveCommand::Abort {
            operation_id: 999,
        })),
        Err(ControlError::Backend(_))
    ));
    assert_eq!(*cp.cluster_state().unwrap(), *before);
}

#[test]
fn desired_authority_and_ready_intents_cannot_be_aborted() {
    let (mut cp, mut desired) = move_control_with_target(2, 63);
    desired.initial_authority = MoveInitialAuthority::Desired;
    assert_eq!(
        cp.propose_move(MoveCommand::Begin(desired))
            .unwrap()
            .outcome,
        MoveCommandOutcome::Applied
    );
    assert_eq!(
        cp.propose_move(MoveCommand::Abort { operation_id: 63 })
            .unwrap()
            .outcome,
        MoveCommandOutcome::Conflict
    );
    assert_eq!(cp.cluster_state().unwrap().moves.intents.len(), 1);

    let (mut cp, expected) = move_control_with_target(2, 64);
    cp.propose_move(MoveCommand::Begin(expected)).unwrap();
    cp.propose_move(MoveCommand::MarkReady {
        operation_id: 64,
        evidence: recovery_evidence(2),
    })
    .unwrap();
    assert_eq!(
        cp.propose_move(MoveCommand::Abort { operation_id: 64 })
            .unwrap()
            .outcome,
        MoveCommandOutcome::Conflict
    );
}

#[test]
fn a_preparing_move_with_expected_authority_can_be_aborted() {
    let (mut cp, intent) = move_control_with_target(2, 65);
    outcome(&mut cp, MoveCommand::Begin(intent));
    assert_eq!(
        outcome(&mut cp, MoveCommand::Abort { operation_id: 65 }),
        MoveCommandOutcome::Applied
    );
    assert!(cp.cluster_state().unwrap().moves.intents.is_empty());
    assert_eq!(
        outcome(&mut cp, MoveCommand::Abort { operation_id: 65 }),
        MoveCommandOutcome::AlreadyApplied
    );
}

#[test]
fn abort_and_finish_preserve_intent_after_identity_drift() {
    let (mut cp, intent) = move_control_with_target(2, 631);
    let operation_id = intent.operation_id;
    assert_eq!(
        cp.propose_move(MoveCommand::Begin(intent)).unwrap().outcome,
        MoveCommandOutcome::Applied
    );
    cp.propose(ClusterStateChange::AddNode(NodeDescriptor {
        id: NodeId(1),
        addr: Some("http://127.0.0.1:59999".into()),
        role: NodeRole::Data,
    }))
    .unwrap();
    assert_eq!(
        cp.propose_move(MoveCommand::Abort { operation_id })
            .unwrap()
            .outcome,
        MoveCommandOutcome::Conflict
    );
    assert_eq!(cp.cluster_state().unwrap().moves.intents.len(), 1);

    let (mut cp, intent) = move_control_with_target(2, 632);
    let operation_id = intent.operation_id;
    let evidence = recovery_evidence(2);
    cp.propose_move(MoveCommand::Begin(intent)).unwrap();
    cp.propose_move(MoveCommand::MarkReady {
        operation_id,
        evidence,
    })
    .unwrap();
    cp.propose_move(MoveCommand::Commit { operation_id })
        .unwrap();
    cp.propose(ClusterStateChange::AddNode(NodeDescriptor {
        id: NodeId(2),
        addr: Some("http://127.0.0.1:59998".into()),
        role: NodeRole::Data,
    }))
    .unwrap();
    assert_eq!(
        cp.propose_move(MoveCommand::Finish { operation_id })
            .unwrap()
            .outcome,
        MoveCommandOutcome::Conflict
    );
    assert_eq!(cp.cluster_state().unwrap().moves.intents.len(), 1);
}

#[test]
fn active_intents_reserve_their_physical_endpoint_footprints() {
    let mut cp = InMemoryControlPlane::single_node(2, 64, 0);
    for id in [1, 2, 3] {
        cp.propose(ClusterStateChange::AddNode(node(id, NodeRole::Data)))
            .unwrap();
    }
    for position in 0..2 {
        cp.propose(ClusterStateChange::AssignShard(ShardAssignment {
            position,
            primary: NodeId(1),
            replicas: Vec::new(),
        }))
        .unwrap();
    }
    let state = cp.cluster_state().unwrap();
    let make_intent = |position, target, operation_id| MoveIntent {
        intent_version: MOVE_INTENT_VERSION,
        operation_id,
        position,
        expected_assignment_generation: state.moves.assignment_generation(position),
        placement_generation: state.placement_generation,
        expected: ShardAssignment {
            position,
            primary: NodeId(1),
            replicas: Vec::new(),
        },
        desired: ShardAssignment {
            position,
            primary: NodeId(target),
            replicas: Vec::new(),
        },
        members: [1, target]
            .into_iter()
            .map(|id| MoveMemberIdentity {
                node: NodeId(id),
                endpoint: format!("http://127.0.0.1:{}", 50050 + id),
            })
            .collect(),
        live_generation: 21,
        source_fence_generation: 21,
        initial_authority: MoveInitialAuthority::Expected,
        phase: MoveIntentPhase::Preparing,
    };
    let first = make_intent(0, 2, 71);
    let overlapping = make_intent(1, 3, 72);
    drop(state);
    assert_eq!(
        cp.propose_move(MoveCommand::Begin(first)).unwrap().outcome,
        MoveCommandOutcome::Applied
    );
    assert_eq!(
        cp.propose_move(MoveCommand::Begin(overlapping))
            .unwrap()
            .outcome,
        MoveCommandOutcome::Conflict
    );
}

#[test]
fn placement_generation_change_invalidates_recovery_evidence() {
    let (mut cp, intent) = move_control_with_target(2, 73);
    cp.propose_move(MoveCommand::Begin(intent)).unwrap();
    cp.propose(ClusterStateChange::BumpModelVersion {
        dict_fingerprint: 99,
    })
    .unwrap();
    assert_eq!(
        cp.propose_move(MoveCommand::MarkReady {
            operation_id: 73,
            evidence: recovery_evidence(2),
        })
        .unwrap()
        .outcome,
        MoveCommandOutcome::Conflict
    );
}

#[test]
fn malformed_begins_are_invalid() {
    let (_, base) = move_control_with_target(2, 81);
    let mut bad: Vec<MoveIntent> = Vec::new();
    let mut intent = base.clone();
    intent.intent_version = 2;
    bad.push(intent);
    let mut intent = base.clone();
    intent.operation_id = 0;
    bad.push(intent);
    let mut intent = base.clone();
    intent.position = 1;
    intent.expected.position = 1;
    intent.desired.position = 1;
    bad.push(intent);
    let mut intent = base.clone();
    intent.desired = intent.expected.clone();
    bad.push(intent);
    let mut intent = base.clone();
    intent.live_generation = 0;
    bad.push(intent);
    let mut intent = base.clone();
    intent.phase = MoveIntentPhase::Ready(recovery_evidence(2));
    bad.push(intent);
    let mut intent = base.clone();
    intent.members.swap(0, 1);
    bad.push(intent);
    let mut intent = base.clone();
    intent.members.pop();
    bad.push(intent);
    let mut intent = base.clone();
    intent.members[1].endpoint = "HTTP://127.0.0.1:50052/".into();
    bad.push(intent);
    let mut intent = base.clone();
    intent.desired.replicas = vec![NodeId(2)];
    bad.push(intent);
    for intent in bad {
        let (mut cp, _) = move_control_with_target(2, 81);
        assert_eq!(
            outcome(&mut cp, MoveCommand::Begin(intent)),
            MoveCommandOutcome::Invalid
        );
        let st = cp.cluster_state().unwrap();
        assert!(st.moves.intents.is_empty());
        assert_eq!(st.moves.format_version, MOVE_CONTROL_FORMAT_CURRENT);
    }
}

#[test]
fn one_assignment_cannot_hold_an_endpoint_twice_but_both_sides_may_share_one() {
    let (mut cp, base) = move_control_with_target(2, 82);
    cp.propose(ClusterStateChange::AddNode(NodeDescriptor {
        id: NodeId(4),
        addr: Some("HTTP://127.0.0.1:50052/".into()),
        role: NodeRole::Data,
    }))
    .unwrap();
    let mut doubled = base.clone();
    doubled.desired.replicas = vec![NodeId(4)];
    doubled.members.push(MoveMemberIdentity {
        node: NodeId(4),
        endpoint: "http://127.0.0.1:50052".into(),
    });
    assert_eq!(
        outcome(&mut cp, MoveCommand::Begin(doubled)),
        MoveCommandOutcome::Invalid
    );

    cp.propose(ClusterStateChange::AddNode(NodeDescriptor {
        id: NodeId(5),
        addr: Some("http://127.0.0.1:50051".into()),
        role: NodeRole::Data,
    }))
    .unwrap();
    let mut alias = base.clone();
    alias.desired.primary = NodeId(5);
    alias.members[1] = MoveMemberIdentity {
        node: NodeId(5),
        endpoint: "http://127.0.0.1:50051".into(),
    };
    assert_eq!(
        outcome(&mut cp, MoveCommand::Begin(alias)),
        MoveCommandOutcome::Applied
    );
}

#[test]
fn evidence_must_be_of_the_generation_and_the_desired_members() {
    let (mut cp, intent) = move_control_with_target(2, 83);
    outcome(&mut cp, MoveCommand::Begin(intent));
    let mut wrong_generation = recovery_evidence(2);
    wrong_generation.live_generation = 18;
    let mut missing = recovery_evidence(2);
    missing.members.clear();
    for evidence in [recovery_evidence(3), wrong_generation, missing] {
        assert_eq!(
            outcome(
                &mut cp,
                MoveCommand::MarkReady {
                    operation_id: 83,
                    evidence
                }
            ),
            MoveCommandOutcome::Invalid
        );
    }
    assert_eq!(
        outcome(
            &mut cp,
            MoveCommand::MarkReady {
                operation_id: 84,
                evidence: recovery_evidence(2)
            }
        ),
        MoveCommandOutcome::Conflict
    );
    assert_eq!(
        outcome(&mut cp, MoveCommand::Commit { operation_id: 83 }),
        MoveCommandOutcome::Conflict
    );
    outcome(
        &mut cp,
        MoveCommand::MarkReady {
            operation_id: 83,
            evidence: recovery_evidence(2),
        },
    );
    let mut other = recovery_evidence(2);
    other.members[0].live_count = 4;
    assert_eq!(
        outcome(
            &mut cp,
            MoveCommand::MarkReady {
                operation_id: 83,
                evidence: other
            }
        ),
        MoveCommandOutcome::Conflict
    );
    assert_eq!(
        outcome(
            &mut cp,
            MoveCommand::MarkReady {
                operation_id: 83,
                evidence: recovery_evidence(2)
            }
        ),
        MoveCommandOutcome::AlreadyApplied
    );
    assert_eq!(
        outcome(&mut cp, MoveCommand::Finish { operation_id: 83 }),
        MoveCommandOutcome::Conflict
    );
}

#[test]
fn a_desired_authority_may_begin_without_a_live_generation() {
    let (mut cp, mut intent) = move_control_with_target(2, 85);
    intent.live_generation = 0;
    intent.initial_authority = MoveInitialAuthority::Desired;
    assert_eq!(MoveCommand::Begin(intent.clone()).operation_id(), 85);
    assert_eq!(
        outcome(&mut cp, MoveCommand::Begin(intent)),
        MoveCommandOutcome::Applied
    );
}
