//! The cluster-state document: membership, the shard-to-node map, ring parameters, the
//! feature-model version, and the durable physical-move intents. Each type has an abstract
//! value, its view, in which vectors are sequences and strings are sequences of characters.

use vstd::prelude::*;

use crate::keyed::{
    Keyed, canonical, find_key, first_with_key, has_key, insert_by_key, lemma_place_canonical,
    lemma_place_contains, place, views,
};

verus! {

/// The version of the intents that this state machine plans and resumes.
pub const MOVE_INTENT_VERSION: u32 = 1;

/// The move format of a document that has never seen a move command.
pub const MOVE_CONTROL_FORMAT_LEGACY: u32 = 1;

/// The move format of a document that has seen one.
pub const MOVE_CONTROL_FORMAT_CURRENT: u32 = 4;

/// Logical node identity. `0` is the conventional id of the single logical node of an
/// in-process cluster.
#[derive(Clone, Copy, PartialEq, Eq, PartialOrd, Ord, Hash, Debug, Structural)]
pub struct NodeId(pub u64);

impl View for NodeId {
    type V = NodeId;

    open spec fn view(&self) -> NodeId {
        *self
    }
}

impl Keyed for NodeId {
    open spec fn key_of(v: NodeId) -> u64 {
        v.0
    }

    fn key(&self) -> (k: u64) {
        self.0
    }
}

/// What a node is eligible to be, whatever data it holds.
#[derive(Clone, Copy, PartialEq, Eq, Debug, Structural)]
pub enum NodeRole {
    /// Holds shard data.
    Data,
    /// Cluster-manager-eligible: can be elected and can vote.
    Manager,
}

/// One cluster member. `addr` is its endpoint; `None` for an in-process logical node,
/// which has no socket.
#[derive(PartialEq, Eq, Debug)]
pub struct NodeDescriptor {
    pub id: NodeId,
    pub addr: Option<String>,
    pub role: NodeRole,
}

/// The view of `NodeDescriptor`.
#[verifier::ext_equal]
pub struct NodeView {
    pub id: NodeId,
    pub addr: Option<Seq<char>>,
    pub role: NodeRole,
}

impl View for NodeDescriptor {
    type V = NodeView;

    open spec fn view(&self) -> NodeView {
        NodeView {
            id: self.id,
            addr: match self.addr {
                Some(a) => Some(a@),
                None => None,
            },
            role: self.role,
        }
    }
}

impl Clone for NodeDescriptor {
    fn clone(&self) -> (r: Self)
        ensures
            r@ == self@,
    {
        let addr = match &self.addr {
            Some(a) => Some(a.clone()),
            None => None,
        };
        NodeDescriptor { id: self.id, addr, role: self.role }
    }
}

impl Keyed for NodeDescriptor {
    open spec fn key_of(v: NodeView) -> u64 {
        v.id.0
    }

    fn key(&self) -> (k: u64) {
        self.id.0
    }
}

/// One shard position's placement across logical nodes. The replication factor of the
/// position is `1 + replicas.len()`.
#[derive(Eq, Debug)]
pub struct ShardAssignment {
    pub position: u32,
    pub primary: NodeId,
    pub replicas: Vec<NodeId>,
}

/// The view of `ShardAssignment`.
#[verifier::ext_equal]
pub struct AssignmentView {
    pub position: u32,
    pub primary: NodeId,
    pub replicas: Seq<NodeId>,
}

impl AssignmentView {
    /// Every node that the assignment names, the primary first.
    pub open spec fn nodes(self) -> Seq<NodeId> {
        seq![self.primary] + self.replicas
    }
}

impl View for ShardAssignment {
    type V = AssignmentView;

    open spec fn view(&self) -> AssignmentView {
        AssignmentView { position: self.position, primary: self.primary, replicas: self.replicas@ }
    }
}

fn same_nodes(a: &Vec<NodeId>, b: &Vec<NodeId>) -> (r: bool)
    ensures
        r == (a@ == b@),
{
    if a.len() != b.len() {
        return false;
    }
    let mut i: usize = 0;
    while i < a.len()
        invariant
            i <= a.len(),
            a.len() == b.len(),
            forall|j: int| 0 <= j < i ==> a@[j] == b@[j],
        decreases a.len() - i,
    {
        if a[i] != b[i] {
            return false;
        }
        i = i + 1;
    }
    assert(a@ =~= b@);
    true
}

impl PartialEq for ShardAssignment {
    fn eq(&self, other: &Self) -> (r: bool) {
        self.position == other.position && self.primary == other.primary && same_nodes(
            &self.replicas,
            &other.replicas,
        )
    }
}

impl vstd::std_specs::cmp::PartialEqSpecImpl for ShardAssignment {
    open spec fn obeys_eq_spec() -> bool {
        true
    }

    open spec fn eq_spec(&self, other: &Self) -> bool {
        self@ == other@
    }
}

impl Clone for ShardAssignment {
    fn clone(&self) -> (r: Self)
        ensures
            r@ == self@,
    {
        let replicas = self.replicas.clone();
        assert(replicas@ =~= self.replicas@);
        ShardAssignment { position: self.position, primary: self.primary, replicas }
    }
}

impl Keyed for ShardAssignment {
    open spec fn key_of(v: AssignmentView) -> u64 {
        v.position as u64
    }

    fn key(&self) -> (k: u64) {
        self.position as u64
    }
}

/// Monotonic committed version of the document. `StateVersion(0)` is genesis.
#[derive(Clone, Copy, PartialEq, Eq, PartialOrd, Ord, Debug, Structural)]
pub struct StateVersion(pub u64);

impl Default for StateVersion {
    fn default() -> (r: Self)
        ensures
            r == StateVersion(0),
    {
        StateVersion(0)
    }
}

/// Per-position assignment generation used by the move compare-and-set.
#[derive(Clone, Copy, Debug, PartialEq, Eq, Structural)]
pub struct AssignmentGeneration {
    pub position: u32,
    pub generation: u64,
}

impl View for AssignmentGeneration {
    type V = AssignmentGeneration;

    open spec fn view(&self) -> AssignmentGeneration {
        *self
    }
}

impl Keyed for AssignmentGeneration {
    open spec fn key_of(v: AssignmentGeneration) -> u64 {
        v.position as u64
    }

    fn key(&self) -> (k: u64) {
        self.position as u64
    }
}

/// A node identity is both its logical id and the normalized endpoint observed at planning
/// time, so re-registering the same id at another address invalidates the transition.
#[derive(Eq, Debug)]
pub struct MoveMemberIdentity {
    pub node: NodeId,
    pub endpoint: String,
}

/// The view of `MoveMemberIdentity`.
#[verifier::ext_equal]
pub struct MemberView {
    pub node: NodeId,
    pub endpoint: Seq<char>,
}

impl View for MoveMemberIdentity {
    type V = MemberView;

    open spec fn view(&self) -> MemberView {
        MemberView { node: self.node, endpoint: self.endpoint@ }
    }
}

impl PartialEq for MoveMemberIdentity {
    fn eq(&self, other: &Self) -> (r: bool) {
        self.node == other.node && self.endpoint == other.endpoint
    }
}

impl vstd::std_specs::cmp::PartialEqSpecImpl for MoveMemberIdentity {
    open spec fn obeys_eq_spec() -> bool {
        true
    }

    open spec fn eq_spec(&self, other: &Self) -> bool {
        self@ == other@
    }
}

impl Clone for MoveMemberIdentity {
    fn clone(&self) -> (r: Self)
        ensures
            r@ == self@,
    {
        MoveMemberIdentity { node: self.node, endpoint: self.endpoint.clone() }
    }
}

impl Keyed for MoveMemberIdentity {
    open spec fn key_of(v: MemberView) -> u64 {
        v.node.0
    }

    fn key(&self) -> (k: u64) {
        self.node.0
    }
}

/// Which side was serving writes when the intent was created.
#[derive(Clone, Copy, Debug, PartialEq, Eq, Structural)]
pub enum MoveInitialAuthority {
    /// The committed assignment was still live. A pre-ready crash can safely abort to it.
    Expected,
    /// The desired assignment was already live. Startup must resume toward the desired side;
    /// returning to the committed source could be stale.
    Desired,
}

/// Exact live-set evidence of one desired member: an order-independent fingerprint of its
/// content plus the number of live rows.
#[derive(Clone, Copy, Debug, PartialEq, Eq, Structural)]
pub struct MoveMemberEvidence {
    pub node: NodeId,
    pub fingerprint_lo: u64,
    pub fingerprint_hi: u64,
    pub live_count: u64,
}

impl View for MoveMemberEvidence {
    type V = MoveMemberEvidence;

    open spec fn view(&self) -> MoveMemberEvidence {
        *self
    }
}

impl Keyed for MoveMemberEvidence {
    open spec fn key_of(v: MoveMemberEvidence) -> u64 {
        v.node.0
    }

    fn key(&self) -> (k: u64) {
        self.node.0
    }
}

/// The evidence of every desired member, at the generation from which they serve.
#[derive(Eq, Debug)]
pub struct MoveRecoveryEvidence {
    pub live_generation: u64,
    pub members: Vec<MoveMemberEvidence>,
}

/// The view of `MoveRecoveryEvidence`.
#[verifier::ext_equal]
pub struct EvidenceView {
    pub live_generation: u64,
    pub members: Seq<MoveMemberEvidence>,
}

impl View for MoveRecoveryEvidence {
    type V = EvidenceView;

    open spec fn view(&self) -> EvidenceView {
        EvidenceView { live_generation: self.live_generation, members: self.members@ }
    }
}

fn same_member_evidence(a: &Vec<MoveMemberEvidence>, b: &Vec<MoveMemberEvidence>) -> (r: bool)
    ensures
        r == (a@ == b@),
{
    if a.len() != b.len() {
        return false;
    }
    let mut i: usize = 0;
    while i < a.len()
        invariant
            i <= a.len(),
            a.len() == b.len(),
            forall|j: int| 0 <= j < i ==> a@[j] == b@[j],
        decreases a.len() - i,
    {
        if a[i] != b[i] {
            return false;
        }
        i = i + 1;
    }
    assert(a@ =~= b@);
    true
}

impl PartialEq for MoveRecoveryEvidence {
    fn eq(&self, other: &Self) -> (r: bool) {
        self.live_generation == other.live_generation && same_member_evidence(
            &self.members,
            &other.members,
        )
    }
}

impl vstd::std_specs::cmp::PartialEqSpecImpl for MoveRecoveryEvidence {
    open spec fn obeys_eq_spec() -> bool {
        true
    }

    open spec fn eq_spec(&self, other: &Self) -> bool {
        self@ == other@
    }
}

impl Clone for MoveRecoveryEvidence {
    fn clone(&self) -> (r: Self)
        ensures
            r@ == self@,
    {
        let members = self.members.clone();
        assert(members@ =~= self.members@);
        MoveRecoveryEvidence { live_generation: self.live_generation, members }
    }
}

/// How far a move has come.
#[derive(Debug, PartialEq, Eq)]
pub enum MoveIntentPhase {
    Preparing,
    Ready(MoveRecoveryEvidence),
    Committed(MoveRecoveryEvidence),
}

/// The view of `MoveIntentPhase`.
#[verifier::ext_equal]
pub enum PhaseView {
    Preparing,
    Ready(EvidenceView),
    Committed(EvidenceView),
}

impl View for MoveIntentPhase {
    type V = PhaseView;

    open spec fn view(&self) -> PhaseView {
        match *self {
            MoveIntentPhase::Preparing => PhaseView::Preparing,
            MoveIntentPhase::Ready(e) => PhaseView::Ready(e@),
            MoveIntentPhase::Committed(e) => PhaseView::Committed(e@),
        }
    }
}

impl Clone for MoveIntentPhase {
    fn clone(&self) -> (r: Self)
        ensures
            r@ == self@,
    {
        match self {
            MoveIntentPhase::Preparing => MoveIntentPhase::Preparing,
            MoveIntentPhase::Ready(e) => MoveIntentPhase::Ready(e.clone()),
            MoveIntentPhase::Committed(e) => MoveIntentPhase::Committed(e.clone()),
        }
    }
}

/// One resumable move: an immutable transition predicate and its durable phase. Only one
/// intent may exist for a position.
#[derive(Debug, PartialEq, Eq)]
pub struct MoveIntent {
    pub intent_version: u32,
    pub operation_id: u64,
    pub position: u32,
    pub expected_assignment_generation: u64,
    pub placement_generation: u64,
    pub expected: ShardAssignment,
    pub desired: ShardAssignment,
    pub members: Vec<MoveMemberIdentity>,
    pub live_generation: u64,
    /// The exact fence generation of the expected primary at cutover; zero where the expected
    /// and desired primaries name one physical slot.
    pub source_fence_generation: u64,
    pub initial_authority: MoveInitialAuthority,
    pub phase: MoveIntentPhase,
}

/// The view of `MoveIntent`.
#[verifier::ext_equal]
pub struct IntentView {
    pub intent_version: u32,
    pub operation_id: u64,
    pub position: u32,
    pub expected_assignment_generation: u64,
    pub placement_generation: u64,
    pub expected: AssignmentView,
    pub desired: AssignmentView,
    pub members: Seq<MemberView>,
    pub live_generation: u64,
    pub source_fence_generation: u64,
    pub initial_authority: MoveInitialAuthority,
    pub phase: PhaseView,
}

impl IntentView {
    /// The same transition in another phase.
    pub open spec fn in_phase(self, phase: PhaseView) -> IntentView {
        IntentView { phase, ..self }
    }

    /// Equal in everything but the phase.
    pub open spec fn same_transition(self, other: IntentView) -> bool {
        self.in_phase(PhaseView::Preparing) == other.in_phase(PhaseView::Preparing)
    }
}

impl View for MoveIntent {
    type V = IntentView;

    open spec fn view(&self) -> IntentView {
        IntentView {
            intent_version: self.intent_version,
            operation_id: self.operation_id,
            position: self.position,
            expected_assignment_generation: self.expected_assignment_generation,
            placement_generation: self.placement_generation,
            expected: self.expected@,
            desired: self.desired@,
            members: views(self.members@),
            live_generation: self.live_generation,
            source_fence_generation: self.source_fence_generation,
            initial_authority: self.initial_authority,
            phase: self.phase@,
        }
    }
}

impl Clone for MoveIntent {
    fn clone(&self) -> (r: Self)
        ensures
            r@ == self@,
    {
        let members = self.members.clone();
        assert(views(members@) =~= views(self.members@));
        MoveIntent {
            intent_version: self.intent_version,
            operation_id: self.operation_id,
            position: self.position,
            expected_assignment_generation: self.expected_assignment_generation,
            placement_generation: self.placement_generation,
            expected: self.expected.clone(),
            desired: self.desired.clone(),
            members,
            live_generation: self.live_generation,
            source_fence_generation: self.source_fence_generation,
            initial_authority: self.initial_authority,
            phase: self.phase.clone(),
        }
    }
}

impl Keyed for MoveIntent {
    open spec fn key_of(v: IntentView) -> u64 {
        v.position as u64
    }

    fn key(&self) -> (k: u64) {
        self.position as u64
    }
}

fn same_members(a: &Vec<MoveMemberIdentity>, b: &Vec<MoveMemberIdentity>) -> (r: bool)
    ensures
        r == (views(a@) == views(b@)),
{
    if a.len() != b.len() {
        assert(views(a@).len() != views(b@).len());
        return false;
    }
    let mut i: usize = 0;
    while i < a.len()
        invariant
            i <= a.len(),
            a.len() == b.len(),
            forall|j: int| 0 <= j < i ==> a@[j]@ == b@[j]@,
        decreases a.len() - i,
    {
        if a[i] != b[i] {
            assert(views(a@)[i as int] != views(b@)[i as int]);
            return false;
        }
        i = i + 1;
    }
    assert(views(a@) =~= views(b@));
    true
}

impl MoveIntent {
    /// The evidence recorded once the move was ready.
    pub fn recovery_evidence(&self) -> (r: Option<&MoveRecoveryEvidence>)
        ensures
            match self@.phase {
                PhaseView::Preparing => r is None,
                PhaseView::Ready(e) => r is Some && r->0@ == e,
                PhaseView::Committed(e) => r is Some && r->0@ == e,
            },
    {
        match &self.phase {
            MoveIntentPhase::Preparing => None,
            MoveIntentPhase::Ready(evidence) => Some(evidence),
            MoveIntentPhase::Committed(evidence) => Some(evidence),
        }
    }

    /// Whether `other` records the same transition, in whatever phase.
    pub fn same_transition(&self, other: &MoveIntent) -> (r: bool)
        ensures
            r == self@.same_transition(other@),
    {
        self.intent_version == other.intent_version && self.operation_id == other.operation_id
            && self.position == other.position && self.expected_assignment_generation
            == other.expected_assignment_generation && self.placement_generation
            == other.placement_generation && self.expected == other.expected && self.desired
            == other.desired && same_members(&self.members, &other.members) && self.live_generation
            == other.live_generation && self.source_fence_generation
            == other.source_fence_generation && self.initial_authority == other.initial_authority
    }
}

/// The durable control state of the resumable-move protocol.
#[derive(Debug, PartialEq, Eq)]
pub struct MoveControlState {
    pub format_version: u32,
    pub assignment_generations: Vec<AssignmentGeneration>,
    pub intents: Vec<MoveIntent>,
}

/// The view of `MoveControlState`.
#[verifier::ext_equal]
pub struct MovesView {
    pub format_version: u32,
    pub assignment_generations: Seq<AssignmentGeneration>,
    pub intents: Seq<IntentView>,
}

impl MovesView {
    /// The recorded generation of a position; zero before its first assignment write.
    pub open spec fn generation(self, position: u32) -> u64 {
        match first_with_key::<AssignmentGeneration>(self.assignment_generations, position as u64) {
            Some(entry) => entry.generation,
            None => 0,
        }
    }
}

impl View for MoveControlState {
    type V = MovesView;

    open spec fn view(&self) -> MovesView {
        MovesView {
            format_version: self.format_version,
            assignment_generations: self.assignment_generations@,
            intents: views(self.intents@),
        }
    }
}

impl Default for MoveControlState {
    fn default() -> (r: Self)
        ensures
            r@ == (MovesView {
                format_version: MOVE_CONTROL_FORMAT_LEGACY,
                assignment_generations: Seq::empty(),
                intents: Seq::empty(),
            }),
    {
        let r = MoveControlState {
            format_version: MOVE_CONTROL_FORMAT_LEGACY,
            assignment_generations: Vec::new(),
            intents: Vec::new(),
        };
        assert(views(r.intents@) =~= Seq::<IntentView>::empty());
        r
    }
}

impl Clone for MoveControlState {
    fn clone(&self) -> (r: Self)
        ensures
            r@ == self@,
    {
        let assignment_generations = self.assignment_generations.clone();
        let intents = self.intents.clone();
        assert(assignment_generations@ =~= self.assignment_generations@);
        assert(views(intents@) =~= views(self.intents@));
        MoveControlState { format_version: self.format_version, assignment_generations, intents }
    }
}

/// A sequence of plain values is its own sequence of views.
pub proof fn lemma_plain_views(s: Seq<AssignmentGeneration>)
    ensures
        views(s) == s,
{
    assert(views(s) =~= s);
}

impl MoveControlState {
    /// The generation recorded for `position`; zero where there is none.
    pub fn assignment_generation(&self, position: u32) -> (r: u64)
        ensures
            r == self@.generation(position),
    {
        proof {
            lemma_plain_views(self.assignment_generations@);
        }
        match find_key(&self.assignment_generations, position as u64) {
            Some(i) => self.assignment_generations[i].generation,
            None => 0,
        }
    }
}

/// The committed cluster-state document.
#[derive(Debug, PartialEq, Eq)]
pub struct ClusterState {
    /// Application-level term, bumped on every committed transition.
    pub epoch: u64,
    /// Cluster membership, kept sorted by id.
    pub nodes: Vec<NodeDescriptor>,
    /// The current voter set, kept sorted and without duplicates.
    pub voters: Vec<NodeId>,
    /// The shard-to-node map, one entry per position, kept sorted by position.
    pub assignments: Vec<ShardAssignment>,
    pub num_shards: u32,
    pub vnodes: u32,
    /// The frozen-dictionary identity.
    pub dict_fingerprint: u64,
    pub model_version: u64,
    /// Logical placement identity: bumped by model and ring rebuilds, never by physical
    /// assignment changes.
    pub placement_generation: u64,
    /// Durable move intents and per-position assignment generations.
    pub moves: MoveControlState,
}

/// The view of `ClusterState`.
#[verifier::ext_equal]
pub struct ClusterStateView {
    pub epoch: u64,
    pub nodes: Seq<NodeView>,
    pub voters: Seq<NodeId>,
    pub assignments: Seq<AssignmentView>,
    pub num_shards: u32,
    pub vnodes: u32,
    pub dict_fingerprint: u64,
    pub model_version: u64,
    pub placement_generation: u64,
    pub moves: MovesView,
}

impl ClusterStateView {
    /// The committed assignment of a position.
    pub open spec fn assignment(self, position: u32) -> Option<AssignmentView> {
        first_with_key::<ShardAssignment>(self.assignments, position as u64)
    }

    /// The registered endpoint of a node.
    pub open spec fn endpoint(self, node: NodeId) -> Option<Seq<char>> {
        match first_with_key::<NodeDescriptor>(self.nodes, node.0) {
            Some(descriptor) => descriptor.addr,
            None => None,
        }
    }
}

impl View for ClusterState {
    type V = ClusterStateView;

    open spec fn view(&self) -> ClusterStateView {
        ClusterStateView {
            epoch: self.epoch,
            nodes: views(self.nodes@),
            voters: self.voters@,
            assignments: views(self.assignments@),
            num_shards: self.num_shards,
            vnodes: self.vnodes,
            dict_fingerprint: self.dict_fingerprint,
            model_version: self.model_version,
            placement_generation: self.placement_generation,
            moves: self.moves@,
        }
    }
}

impl Clone for ClusterState {
    fn clone(&self) -> (r: Self)
        ensures
            r@ == self@,
    {
        let nodes = self.nodes.clone();
        let voters = self.voters.clone();
        let assignments = self.assignments.clone();
        assert(views(nodes@) =~= views(self.nodes@));
        assert(voters@ =~= self.voters@);
        assert(views(assignments@) =~= views(self.assignments@));
        ClusterState {
            epoch: self.epoch,
            nodes,
            voters,
            assignments,
            num_shards: self.num_shards,
            vnodes: self.vnodes,
            dict_fingerprint: self.dict_fingerprint,
            model_version: self.model_version,
            placement_generation: self.placement_generation,
            moves: self.moves.clone(),
        }
    }
}

impl ClusterState {
    /// The committed assignment of a position.
    pub fn assignment(&self, position: u32) -> (r: Option<&ShardAssignment>)
        ensures
            match r {
                Some(a) => self@.assignment(position) == Some(a@),
                None => self@.assignment(position) is None,
            },
    {
        match find_key(&self.assignments, position as u64) {
            Some(i) => Some(&self.assignments[i]),
            None => None,
        }
    }

    /// The registered endpoint of a node.
    pub fn endpoint(&self, node: NodeId) -> (r: Option<&String>)
        ensures
            match r {
                Some(e) => self@.endpoint(node) == Some(e@),
                None => self@.endpoint(node) is None,
            },
    {
        match find_key(&self.nodes, node.0) {
            Some(i) => match &self.nodes[i].addr {
                Some(e) => Some(e),
                None => None,
            },
            None => None,
        }
    }
}

/// Idempotent commands whose preconditions are evaluated atomically by the control state
/// machine.
#[derive(Debug, PartialEq, Eq)]
pub enum MoveCommand {
    Begin(MoveIntent),
    MarkReady { operation_id: u64, evidence: MoveRecoveryEvidence },
    Commit { operation_id: u64 },
    Abort { operation_id: u64 },
    Finish { operation_id: u64 },
}

/// The view of `MoveCommand`.
#[verifier::ext_equal]
pub enum CommandView {
    Begin(IntentView),
    MarkReady { operation_id: u64, evidence: EvidenceView },
    Commit { operation_id: u64 },
    Abort { operation_id: u64 },
    Finish { operation_id: u64 },
}

impl CommandView {
    /// The operation that the command is about.
    pub open spec fn operation(self) -> u64 {
        match self {
            CommandView::Begin(intent) => intent.operation_id,
            CommandView::MarkReady { operation_id, .. } => operation_id,
            CommandView::Commit { operation_id } => operation_id,
            CommandView::Abort { operation_id } => operation_id,
            CommandView::Finish { operation_id } => operation_id,
        }
    }
}

impl View for MoveCommand {
    type V = CommandView;

    open spec fn view(&self) -> CommandView {
        match *self {
            MoveCommand::Begin(intent) => CommandView::Begin(intent@),
            MoveCommand::MarkReady { operation_id, evidence } => CommandView::MarkReady {
                operation_id,
                evidence: evidence@,
            },
            MoveCommand::Commit { operation_id } => CommandView::Commit { operation_id },
            MoveCommand::Abort { operation_id } => CommandView::Abort { operation_id },
            MoveCommand::Finish { operation_id } => CommandView::Finish { operation_id },
        }
    }
}

impl Clone for MoveCommand {
    fn clone(&self) -> (r: Self)
        ensures
            r@ == self@,
    {
        match self {
            MoveCommand::Begin(intent) => MoveCommand::Begin(intent.clone()),
            MoveCommand::MarkReady { operation_id, evidence } => MoveCommand::MarkReady {
                operation_id: *operation_id,
                evidence: evidence.clone(),
            },
            MoveCommand::Commit { operation_id } => MoveCommand::Commit {
                operation_id: *operation_id,
            },
            MoveCommand::Abort { operation_id } => MoveCommand::Abort {
                operation_id: *operation_id,
            },
            MoveCommand::Finish { operation_id } => MoveCommand::Finish {
                operation_id: *operation_id,
            },
        }
    }
}

impl MoveCommand {
    /// The operation that the command belongs to.
    pub fn operation_id(&self) -> (r: u64)
        ensures
            r == self@.operation(),
    {
        match self {
            MoveCommand::Begin(intent) => intent.operation_id,
            MoveCommand::MarkReady { operation_id, .. } => *operation_id,
            MoveCommand::Commit { operation_id } => *operation_id,
            MoveCommand::Abort { operation_id } => *operation_id,
            MoveCommand::Finish { operation_id } => *operation_id,
        }
    }
}

/// What a move command came to.
#[derive(Clone, Copy, Debug, PartialEq, Eq, Structural)]
pub enum MoveCommandOutcome {
    Applied,
    AlreadyApplied,
    Conflict,
    Invalid,
}

/// The outcome of a move command, and the version of the document that has seen it.
#[derive(Clone, Copy, Debug, PartialEq, Eq, Structural)]
pub struct MoveProposalResult {
    pub version: StateVersion,
    pub outcome: MoveCommandOutcome,
}

/// One atomic transition that the control plane commits. `AddNode` and `RemoveNode` register
/// nodes in the document; the voter set is changed by a separate operation.
#[derive(Debug, PartialEq, Eq)]
pub enum ClusterStateChange {
    /// Register a cluster member, replacing one with the same id.
    AddNode(NodeDescriptor),
    /// Deregister a member by id. Voters and assignments are not pruned.
    RemoveNode(NodeId),
    /// Place a shard position on nodes, replacing the entry for that position.
    AssignShard(ShardAssignment),
    /// Advance the feature-model version.
    BumpModelVersion { dict_fingerprint: u64 },
    /// Resize the cluster to `num_shards` positions.
    SetShardCount { num_shards: u32 },
    /// A versioned, idempotent physical-move transition.
    Move(MoveCommand),
}

/// The view of `ClusterStateChange`.
#[verifier::ext_equal]
pub enum ChangeView {
    AddNode(NodeView),
    RemoveNode(NodeId),
    AssignShard(AssignmentView),
    BumpModelVersion { dict_fingerprint: u64 },
    SetShardCount { num_shards: u32 },
    Move(CommandView),
}

impl View for ClusterStateChange {
    type V = ChangeView;

    open spec fn view(&self) -> ChangeView {
        match *self {
            ClusterStateChange::AddNode(node) => ChangeView::AddNode(node@),
            ClusterStateChange::RemoveNode(id) => ChangeView::RemoveNode(id),
            ClusterStateChange::AssignShard(a) => ChangeView::AssignShard(a@),
            ClusterStateChange::BumpModelVersion { dict_fingerprint } =>
                ChangeView::BumpModelVersion { dict_fingerprint },
            ClusterStateChange::SetShardCount { num_shards } => ChangeView::SetShardCount {
                num_shards,
            },
            ClusterStateChange::Move(command) => ChangeView::Move(command@),
        }
    }
}

impl Clone for ClusterStateChange {
    fn clone(&self) -> (r: Self)
        ensures
            r@ == self@,
    {
        match self {
            ClusterStateChange::AddNode(node) => ClusterStateChange::AddNode(node.clone()),
            ClusterStateChange::RemoveNode(id) => ClusterStateChange::RemoveNode(*id),
            ClusterStateChange::AssignShard(a) => ClusterStateChange::AssignShard(a.clone()),
            ClusterStateChange::BumpModelVersion { dict_fingerprint } => {
                ClusterStateChange::BumpModelVersion { dict_fingerprint: *dict_fingerprint }
            },
            ClusterStateChange::SetShardCount { num_shards } => ClusterStateChange::SetShardCount {
                num_shards: *num_shards,
            },
            ClusterStateChange::Move(command) => ClusterStateChange::Move(command.clone()),
        }
    }
}

/// The nodes in increasing order, each once.
pub open spec fn node_set(nodes: Seq<NodeId>) -> Seq<NodeId>
    decreases nodes.len(),
{
    if nodes.len() == 0 {
        nodes
    } else {
        let rest = node_set(nodes.drop_last());
        if has_key::<NodeId>(rest, nodes.last().0) {
            rest
        } else {
            place::<NodeId>(rest, nodes.last())
        }
    }
}

/// Sorts the nodes and drops repeated ones.
pub fn sort_nodes(nodes: Vec<NodeId>) -> (r: Vec<NodeId>)
    ensures
        r@ == node_set(nodes@),
{
    let mut sorted: Vec<NodeId> = Vec::new();
    let mut i: usize = 0;
    assert(sorted@ =~= node_set(nodes@.take(0)));
    while i < nodes.len()
        invariant
            i <= nodes.len(),
            sorted@ == node_set(nodes@.take(i as int)),
        decreases nodes.len() - i,
    {
        let node = nodes[i];
        assert(nodes@.take(i + 1).drop_last() =~= nodes@.take(i as int));
        assert(views(sorted@) =~= sorted@);
        if find_key(&sorted, node.0).is_none() {
            insert_by_key(&mut sorted, node);
            assert(views(sorted@) =~= sorted@);
        } else {
            assert(has_key::<NodeId>(sorted@, node.0));
        }
        i = i + 1;
    }
    assert(nodes@.take(nodes@.len() as int) =~= nodes@);
    sorted
}

/// The set has the nodes that were given, in strictly increasing order.
pub proof fn lemma_node_set(nodes: Seq<NodeId>)
    ensures
        canonical::<NodeId>(node_set(nodes)),
        forall|n: NodeId| #[trigger] node_set(nodes).contains(n) <==> nodes.contains(n),
    decreases nodes.len(),
{
    if nodes.len() > 0 {
        let rest = node_set(nodes.drop_last());
        let last = nodes.last();
        lemma_node_set(nodes.drop_last());
        lemma_place_contains::<NodeId>(rest, last);
        if !has_key::<NodeId>(rest, last.0) {
            lemma_place_canonical::<NodeId>(rest, last);
        }
        assert forall|n: NodeId| #[trigger] node_set(nodes).contains(n) <==> nodes.contains(n) by {
            assert(nodes =~= nodes.drop_last().push(last));
            assert(nodes.contains(n) <==> (nodes.drop_last().contains(n) || n == last)) by {
                if nodes.drop_last().contains(n) {
                    let i = choose|i: int|
                        0 <= i < nodes.drop_last().len() && nodes.drop_last()[i] == n;
                    assert(nodes[i] == n);
                }
                if nodes.contains(n) {
                    let i = choose|i: int| 0 <= i < nodes.len() && nodes[i] == n;
                    if i < nodes.len() - 1 {
                        assert(nodes.drop_last()[i] == n);
                    }
                }
                assert(nodes[nodes.len() - 1] == last);
            }
            assert(rest.contains(n) <==> nodes.drop_last().contains(n));
            if has_key::<NodeId>(rest, last.0) {
                let i = choose|i: int|
                    0 <= i < rest.len() && NodeId::key_of(#[trigger] rest[i]) == last.0;
                assert(rest[i] == last);
                assert(rest.contains(last));
            } else {
                assert(place::<NodeId>(rest, last).contains(n) <==> (rest.contains(n) || n
                    == last));
            }
        }
    }
}

} // verus!
