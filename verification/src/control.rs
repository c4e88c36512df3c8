//! The control plane: one document of cluster state, changed by committed transitions.
//!
//! A control plane offers linearizable reads of the document, proposals that commit one
//! transition each, and a separate operation for the voter set. Proposals fail closed: one
//! that is rejected leaves the document as it was. Move commands may be repeated, so only they
//! may fail without saying whether they were committed.

use std::sync::Arc;

use vstd::prelude::*;

use crate::document::{
    AssignmentGeneration, AssignmentView, ChangeView, ClusterState, ClusterStateChange,
    ClusterStateView, MOVE_CONTROL_FORMAT_LEGACY, MoveCommand, MoveCommandOutcome,
    MoveControlState, MoveProposalResult, MovesView, NodeDescriptor, NodeId, NodeRole, NodeView,
    ShardAssignment, StateVersion, node_set, sort_nodes,
};
use crate::error::ControlError;
use crate::keyed::{
    drop_key, find_key, has_key, keep_below, keys_below, sort_by_key, sorted_by_key, views,
    without_key,
};
use crate::move_intent::{
    apply_move, move_outcome, move_state, replace_assignment, saturating_next, with_assignment,
};

verus! {

/// The placement generation of a cluster that was never rebuilt.
pub const PLACEMENT_GENERATION_INITIAL: u64 = 1;

// ---- Transitions ---------------------------------------------------------------------------

/// The assignment that a position has where nothing else was decided.
pub open spec fn default_assignment(position: u32) -> AssignmentView {
    AssignmentView { position, primary: NodeId(0), replicas: Seq::empty() }
}

/// `assignments` with a default behind it for each missing position below `count`.
pub open spec fn filled(assignments: Seq<AssignmentView>, count: nat) -> Seq<AssignmentView>
    decreases count,
{
    if count == 0 {
        assignments
    } else {
        let position = (count - 1) as u32;
        let rest = filled(assignments, (count - 1) as nat);
        if has_key::<ShardAssignment>(rest, position as u64) {
            rest
        } else {
            rest.push(default_assignment(position))
        }
    }
}

/// The document after a transition, but for the epoch.
pub open spec fn changed(state: ClusterStateView, change: ChangeView) -> ClusterStateView {
    match change {
        ChangeView::AddNode(node) => ClusterStateView {
            nodes: sorted_by_key::<NodeDescriptor>(
                without_key::<NodeDescriptor>(state.nodes, node.id.0).push(node),
            ),
            ..state
        },
        ChangeView::RemoveNode(id) => ClusterStateView {
            nodes: without_key::<NodeDescriptor>(state.nodes, id.0),
            ..state
        },
        ChangeView::AssignShard(assignment) => with_assignment(state, assignment),
        ChangeView::BumpModelVersion { dict_fingerprint } => ClusterStateView {
            dict_fingerprint,
            model_version: (state.model_version + 1) as u64,
            placement_generation: saturating_next(state.placement_generation),
            ..state
        },
        ChangeView::SetShardCount { num_shards } => ClusterStateView {
            num_shards,
            placement_generation: saturating_next(state.placement_generation),
            assignments: sorted_by_key::<ShardAssignment>(
                filled(
                    keys_below::<ShardAssignment>(state.assignments, num_shards as u64),
                    num_shards as nat,
                ),
            ),
            moves: MovesView {
                assignment_generations: keys_below::<AssignmentGeneration>(
                    state.moves.assignment_generations,
                    num_shards as u64,
                ),
                ..state.moves
            },
            ..state
        },
        ChangeView::Move(command) => move_state(state, command),
    }
}

/// What a transition reports: the outcome of a move command, nothing otherwise.
pub open spec fn reported(
    state: ClusterStateView,
    change: ChangeView,
) -> Option<MoveCommandOutcome> {
    match change {
        ChangeView::Move(command) => Some(move_outcome(state, command)),
        _ => None,
    }
}

/// No counter of the document overflows in the transition.
pub open spec fn counters_fit(state: ClusterStateView, change: ChangeView) -> bool {
    change is BumpModelVersion ==> state.model_version < u64::MAX
}

/// The document with its epoch advanced: one more commit.
pub open spec fn committed(state: ClusterStateView) -> ClusterStateView {
    ClusterStateView { epoch: (state.epoch + 1) as u64, ..state }
}

/// The default assignment of a position.
fn unassigned(position: u32) -> (r: ShardAssignment)
    ensures
        r@ == default_assignment(position),
{
    let r = ShardAssignment { position, primary: NodeId(0), replicas: Vec::new() };
    assert(r@.replicas =~= Seq::<NodeId>::empty());
    r
}

/// Adds a default assignment for each missing position below `count`.
fn fill_positions(assignments: &mut Vec<ShardAssignment>, count: u32)
    ensures
        views(final(assignments)@) == filled(views(old(assignments)@), count as nat),
{
    let mut position: u32 = 0;
    while position < count
        invariant
            position <= count,
            views(assignments@) == filled(views(old(assignments)@), position as nat),
        decreases count - position,
    {
        if find_key(assignments, position as u64).is_none() {
            let ghost before = assignments@;
            assignments.push(unassigned(position));
            assert(views(assignments@) =~= views(before).push(default_assignment(position)));
        } else {
            assert(has_key::<ShardAssignment>(views(assignments@), position as u64));
        }
        position = position + 1;
    }
}

/// Applies one transition to the document in place, but for the epoch, which the caller owns.
///
/// Nodes and assignments are kept sorted, so replaying the same changes yields the same
/// document whatever backend commits them.
pub fn apply(state: &mut ClusterState, change: ClusterStateChange) -> (outcome: Option<
    MoveCommandOutcome,
>)
    requires
        counters_fit(old(state)@, change@),
    ensures
        outcome == reported(old(state)@, change@),
        final(state)@ == changed(old(state)@, change@),
{
    match change {
        ClusterStateChange::AddNode(node) => {
            let mut nodes: Vec<NodeDescriptor> = Vec::new();
            std::mem::swap(&mut nodes, &mut state.nodes);
            let mut kept = drop_key(nodes, node.id.0);
            let ghost before = kept@;
            kept.push(node);
            assert(views(kept@) =~= views(before).push(node@));
            state.nodes = sort_by_key(kept);
            None
        },
        ClusterStateChange::RemoveNode(id) => {
            let mut nodes: Vec<NodeDescriptor> = Vec::new();
            std::mem::swap(&mut nodes, &mut state.nodes);
            state.nodes = drop_key(nodes, id.0);
            None
        },
        ClusterStateChange::AssignShard(assignment) => {
            replace_assignment(state, assignment);
            None
        },
        ClusterStateChange::BumpModelVersion { dict_fingerprint } => {
            state.dict_fingerprint = dict_fingerprint;
            state.model_version = state.model_version + 1;
            state.placement_generation = state.placement_generation.saturating_add(1);
            None
        },
        ClusterStateChange::SetShardCount { num_shards } => {
            state.num_shards = num_shards;
            state.placement_generation = state.placement_generation.saturating_add(1);
            let mut assignments: Vec<ShardAssignment> = Vec::new();
            std::mem::swap(&mut assignments, &mut state.assignments);
            let mut kept = keep_below(assignments, num_shards as u64);
            fill_positions(&mut kept, num_shards);
            state.assignments = sort_by_key(kept);
            state.moves.retain_positions_below(num_shards);
            None
        },
        ClusterStateChange::Move(command) => Some(apply_move(state, command)),
    }
}

// ---- Genesis -------------------------------------------------------------------------------

/// The document of one logical node that owns every position.
pub open spec fn genesis(
    num_shards: u32,
    vnodes: u32,
    dict_fingerprint: u64,
    placement_generation: u64,
) -> ClusterStateView {
    ClusterStateView {
        epoch: 0,
        nodes: seq![NodeView { id: NodeId(0), addr: None, role: NodeRole::Manager }],
        voters: seq![NodeId(0)],
        assignments: Seq::new(num_shards as nat, |i: int| default_assignment(i as u32)),
        num_shards,
        vnodes,
        dict_fingerprint,
        model_version: 0,
        placement_generation,
        moves: MovesView {
            format_version: MOVE_CONTROL_FORMAT_LEGACY,
            assignment_generations: Seq::empty(),
            intents: Seq::empty(),
        },
    }
}

/// The canonical document of a single logical node: it is the one manager and voter, has no
/// socket, and is the primary of every position.
pub fn single_node_state(num_shards: u32, vnodes: u32, dict_fingerprint: u64) -> (r: ClusterState)
    ensures
        r@ == genesis(num_shards, vnodes, dict_fingerprint, PLACEMENT_GENERATION_INITIAL),
{
    let mut assignments: Vec<ShardAssignment> = Vec::new();
    let mut position: u32 = 0;
    while position < num_shards
        invariant
            position <= num_shards,
            assignments.len() == position,
            forall|i: int|
                0 <= i < position ==> (#[trigger] assignments@[i])@ == default_assignment(i as u32),
        decreases num_shards - position,
    {
        assignments.push(unassigned(position));
        position = position + 1;
    }
    let mut nodes: Vec<NodeDescriptor> = Vec::new();
    nodes.push(NodeDescriptor { id: NodeId(0), addr: None, role: NodeRole::Manager });
    let mut voters: Vec<NodeId> = Vec::new();
    voters.push(NodeId(0));
    let state = ClusterState {
        epoch: 0,
        nodes,
        voters,
        assignments,
        num_shards,
        vnodes,
        dict_fingerprint,
        model_version: 0,
        placement_generation: PLACEMENT_GENERATION_INITIAL,
        moves: MoveControlState::default(),
    };
    assert(state@ =~= genesis(num_shards, vnodes, dict_fingerprint, PLACEMENT_GENERATION_INITIAL));
    state
}

// ---- The seam ------------------------------------------------------------------------------

/// A backend that holds the document. Reads are of the committed document; a proposal commits
/// one transition, or fails and leaves the document as it was, unless it is a move command.
pub trait ControlPlane {
    /// The committed document.
    spec fn document(&self) -> ClusterStateView;

    /// The committed document as a stable snapshot.
    fn cluster_state(&self) -> (r: Result<Arc<ClusterState>, ControlError>)
        ensures
            r matches Ok(state) ==> (*state)@ == self.document(),
    ;

    /// The committed version, without the document.
    fn version(&self) -> (r: Result<StateVersion, ControlError>)
        ensures
            r matches Ok(version) ==> version == StateVersion(self.document().epoch),
    ;

    /// Commits one transition other than a move, which would lose its outcome here.
    fn propose(&mut self, change: ClusterStateChange) -> (r: Result<StateVersion, ControlError>)
        requires
            old(self).document().epoch < u64::MAX,
            counters_fit(old(self).document(), change@),
        ensures
            match r {
                Ok(version) => {
                    &&& !(change@ is Move)
                    &&& final(self).document() == committed(changed(old(self).document(), change@))
                    &&& version == StateVersion(final(self).document().epoch)
                },
                Err(_) => final(self).document() == old(self).document(),
            },
    ;

    /// Commits one move command and reports its outcome. A failure may be ambiguous: the
    /// command was then committed all the same, or not at all. Operation ids make it safe to
    /// repeat.
    fn propose_move(&mut self, command: MoveCommand) -> (r: Result<
        MoveProposalResult,
        ControlError,
    >)
        requires
            old(self).document().epoch < u64::MAX,
        ensures
            match r {
                Ok(result) => {
                    &&& result.outcome == move_outcome(old(self).document(), command@)
                    &&& final(self).document() == committed(
                        move_state(old(self).document(), command@),
                    )
                    &&& result.version == StateVersion(final(self).document().epoch)
                },
                Err(_) => {
                    ||| final(self).document() == old(self).document()
                    ||| final(self).document() == committed(
                        move_state(old(self).document(), command@),
                    )
                },
            },
        default_ensures
            r matches Err(ControlError::Backend(m)) && m@
                == "durable move proposals are not supported by this control-plane backend"@,
            final(self).document() == old(self).document(),
    {
        Err(
            ControlError::Backend(
                "durable move proposals are not supported by this control-plane backend".to_owned(),
            ),
        )
    }

    /// Commits a new voter set.
    fn change_membership(&mut self, voters: Vec<NodeId>) -> (r: Result<StateVersion, ControlError>)
        requires
            old(self).document().epoch < u64::MAX,
        ensures
            match r {
                Ok(version) => {
                    &&& final(self).document() == committed(
                        ClusterStateView { voters: node_set(voters@), ..old(self).document() },
                    )
                    &&& version == StateVersion(final(self).document().epoch)
                },
                Err(_) => final(self).document() == old(self).document(),
            },
    ;

    /// The current leader, if known.
    fn leader(&self) -> (r: Result<Option<NodeId>, ControlError>);
}

/// The single-node control plane: every proposal is applied at once to a document in memory.
pub struct InMemoryControlPlane {
    state: Arc<ClusterState>,
    broken: bool,
}

impl InMemoryControlPlane {
    /// Whether proposals were made to fail.
    pub closed spec fn is_broken(&self) -> bool {
        self.broken
    }

    /// A control plane that starts from an explicit document.
    pub fn new(initial: ClusterState) -> (r: Self)
        ensures
            r.document() == initial@,
            !r.is_broken(),
    {
        InMemoryControlPlane { state: Arc::new(initial), broken: false }
    }

    /// The default control plane of one logical node.
    pub fn single_node(num_shards: u32, vnodes: u32, dict_fingerprint: u64) -> (r: Self)
        ensures
            r.document() == genesis(
                num_shards,
                vnodes,
                dict_fingerprint,
                PLACEMENT_GENERATION_INITIAL,
            ),
            !r.is_broken(),
    {
        InMemoryControlPlane::new(single_node_state(num_shards, vnodes, dict_fingerprint))
    }

    /// The control plane of one logical node at a given placement generation.
    pub fn single_node_with_generation(
        num_shards: u32,
        vnodes: u32,
        dict_fingerprint: u64,
        generation: u64,
    ) -> (r: Self)
        ensures
            r.document() == genesis(num_shards, vnodes, dict_fingerprint, generation),
            !r.is_broken(),
    {
        let mut state = single_node_state(num_shards, vnodes, dict_fingerprint);
        state.placement_generation = generation;
        InMemoryControlPlane::new(state)
    }

    /// Makes every later proposal fail, to exercise the fail-closed contract.
    pub fn break_proposals_for_test(&mut self)
        ensures
            final(self).document() == old(self).document(),
            final(self).is_broken(),
    {
        self.broken = true;
    }

    fn injected_fault() -> (r: ControlError)
        ensures
            r matches ControlError::Backend(m) && m@ == "proposals broken (test fault injection)"@,
    {
        ControlError::Backend("proposals broken (test fault injection)".to_owned())
    }

    fn commit(&mut self, next: ClusterState) -> (version: StateVersion)
        requires
            next@.epoch < u64::MAX,
        ensures
            final(self).document() == committed(next@),
            version == StateVersion(final(self).document().epoch),
            final(self).is_broken() == old(self).is_broken(),
    {
        let mut next = next;
        next.epoch = next.epoch + 1;
        let version = StateVersion(next.epoch);
        self.state = Arc::new(next);
        version
    }
}

impl ControlPlane for InMemoryControlPlane {
    closed spec fn document(&self) -> ClusterStateView {
        (*self.state)@
    }

    fn cluster_state(&self) -> (r: Result<Arc<ClusterState>, ControlError>)
        ensures
            r is Ok,
    {
        Ok(Arc::clone(&self.state))
    }

    fn version(&self) -> (r: Result<StateVersion, ControlError>)
        ensures
            r is Ok,
    {
        Ok(StateVersion(self.state.epoch))
    }

    fn propose(&mut self, change: ClusterStateChange) -> (r: Result<StateVersion, ControlError>)
        ensures
            match r {
                Ok(_) => !old(self).is_broken() && !(change@ is Move),
                Err(e) => e matches ControlError::Backend(m) && if old(self).is_broken() {
                    m@ == "proposals broken (test fault injection)"@
                } else {
                    change@ is Move && m@ == "move commands must go through propose_move"@
                },
            },
            final(self).is_broken() == old(self).is_broken(),
    {
        if self.broken {
            return Err(Self::injected_fault());
        }
        match &change {
            ClusterStateChange::Move(_) => {
                return Err(
                    ControlError::Backend(
                        "move commands must go through propose_move".to_owned(),
                    ),
                );
            },
            _ => {},
        }
        let mut next = (*self.state).clone();
        let _ = apply(&mut next, change);
        Ok(self.commit(next))
    }

    fn propose_move(&mut self, command: MoveCommand) -> (r: Result<
        MoveProposalResult,
        ControlError,
    >)
        ensures
            match r {
                Ok(_) => !old(self).is_broken(),
                Err(e) => {
                    &&& e matches ControlError::Backend(m) && m@
                        == "proposals broken (test fault injection)"@
                    &&& old(self).is_broken()
                    &&& final(self).document() == old(self).document()
                },
            },
            final(self).is_broken() == old(self).is_broken(),
    {
        if self.broken {
            return Err(Self::injected_fault());
        }
        let mut next = (*self.state).clone();
        let outcome = apply_move(&mut next, command);
        let version = self.commit(next);
        Ok(MoveProposalResult { version, outcome })
    }

    fn change_membership(&mut self, voters: Vec<NodeId>) -> (r: Result<StateVersion, ControlError>)
        ensures
            match r {
                Ok(_) => !old(self).is_broken(),
                Err(e) => e matches ControlError::Backend(m) && old(self).is_broken() && m@
                    == "proposals broken (test fault injection)"@,
            },
            final(self).is_broken() == old(self).is_broken(),
    {
        if self.broken {
            return Err(Self::injected_fault());
        }
        let mut next = (*self.state).clone();
        next.voters = sort_nodes(voters);
        Ok(self.commit(next))
    }

    fn leader(&self) -> (r: Result<Option<NodeId>, ControlError>)
        ensures
            r == Ok::<Option<NodeId>, ControlError>(
                if self.document().voters.len() > 0 {
                    Some(self.document().voters[0])
                } else {
                    None
                },
            ),
    {
        if self.state.voters.len() > 0 {
            Ok(Some(self.state.voters[0]))
        } else {
            Ok(None)
        }
    }
}

} // verus!
