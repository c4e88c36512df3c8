//! Durable data-movement intents and the conditional assignment transitions they drive.
//!
//! A live shard move has physical side effects outside the control document. The document is
//! the coordination point that makes those effects restartable and keeps two coordinators from
//! committing contradictory owners. Every command is idempotent by its operation id, and its
//! preconditions are evaluated against the document it is applied to.

use vstd::prelude::*;

use crate::document::{
    AssignmentGeneration, AssignmentView, ClusterState, ClusterStateView, CommandView,
    EvidenceView, IntentView, MOVE_CONTROL_FORMAT_CURRENT, MOVE_INTENT_VERSION, MemberView,
    MoveCommand, MoveCommandOutcome, MoveControlState, MoveInitialAuthority, MoveIntent,
    MoveIntentPhase, MoveMemberEvidence, MoveMemberIdentity, MoveRecoveryEvidence, MovesView,
    NodeId, PhaseView, ShardAssignment,
};
use crate::keyed::{
    Keyed, canonical, drop_key, find_key, has_key, insert_by_key, keep_below, key_index, keys_below,
    lemma_canonical_unique, lemma_place_canonical, lemma_place_contains, place, sort_by_key,
    sorted_by_key, views, without_key,
};
use crate::text::{normalized, normalized_move_endpoint};

verus! {

// ---- What the commands mean ----------------------------------------------------------------

/// The endpoint recorded for a member is a non-empty normalized endpoint, and the document
/// registers that node at it.
pub open spec fn identity_holds(state: ClusterStateView, member: MemberView) -> bool {
    &&& member.endpoint.len() > 0
    &&& member.endpoint == normalized(member.endpoint)
    &&& state.endpoint(member.node) is Some
    &&& normalized(state.endpoint(member.node)->0) == member.endpoint
}

/// No two members of the assignment are recorded at one endpoint.
pub open spec fn distinct_endpoints(
    assignment: AssignmentView,
    members: Seq<MemberView>,
) -> bool {
    forall|i: int, j: int|
        0 <= i < j < members.len() && assignment.nodes().contains((#[trigger] members[i]).node)
            && assignment.nodes().contains((#[trigger] members[j]).node)
            ==> members[i].endpoint != members[j].endpoint
}

/// The members are the nodes of both assignments, in increasing order.
pub open spec fn members_cover(intent: IntentView) -> bool {
    &&& intent.expected.nodes().no_duplicates()
    &&& intent.desired.nodes().no_duplicates()
    &&& canonical::<MoveMemberIdentity>(intent.members)
    &&& forall|n: NodeId|
        has_key::<MoveMemberIdentity>(intent.members, n.0) <==> (
        #[trigger] intent.expected.nodes().contains(n) || intent.desired.nodes().contains(n))
}

/// Every recorded identity is the one that the document registers.
pub open spec fn identities_hold(state: ClusterStateView, intent: IntentView) -> bool {
    &&& members_cover(intent)
    &&& forall|i: int|
        0 <= i < intent.members.len() ==> identity_holds(state, #[trigger] intent.members[i])
    &&& distinct_endpoints(intent.expected, intent.members)
    &&& distinct_endpoints(intent.desired, intent.members)
}

/// Whether an intent may begin at all, whatever the state of the race for its position.
pub open spec fn begin_valid(state: ClusterStateView, intent: IntentView) -> bool {
    &&& intent.intent_version == MOVE_INTENT_VERSION
    &&& intent.operation_id != 0
    &&& intent.position < state.num_shards
    &&& intent.expected.position == intent.position
    &&& intent.desired.position == intent.position
    &&& intent.expected != intent.desired
    &&& intent.initial_authority is Expected ==> intent.live_generation != 0
    &&& intent.phase is Preparing
    &&& identities_hold(state, intent)
}

/// The evidence is of the intent's generation and of exactly the desired members, in
/// increasing order.
pub open spec fn evidence_fits(intent: IntentView, evidence: EvidenceView) -> bool {
    &&& intent.desired.nodes().no_duplicates()
    &&& canonical::<MoveMemberEvidence>(evidence.members)
    &&& forall|n: NodeId|
        has_key::<MoveMemberEvidence>(evidence.members, n.0)
            <==> #[trigger] intent.desired.nodes().contains(n)
    &&& evidence.live_generation == intent.live_generation
}

/// The document still is what the intent was planned against.
pub open spec fn predicate_holds(state: ClusterStateView, intent: IntentView) -> bool {
    &&& state.assignment(intent.position) == Some(intent.expected)
    &&& state.moves.generation(intent.position) == intent.expected_assignment_generation
    &&& state.placement_generation == intent.placement_generation
    &&& identities_hold(state, intent)
}

/// `i` is the first intent with that operation id.
pub open spec fn first_operation_at(intents: Seq<IntentView>, operation: u64, i: int) -> bool {
    &&& 0 <= i < intents.len()
    &&& intents[i].operation_id == operation
    &&& forall|j: int| 0 <= j < i ==> (#[trigger] intents[j]).operation_id != operation
}

/// The index of the intent with that operation id.
pub open spec fn operation_index(intents: Seq<IntentView>, operation: u64) -> Option<int> {
    if exists|i: int| first_operation_at(intents, operation, i) {
        Some(choose|i: int| first_operation_at(intents, operation, i))
    } else {
        None
    }
}

/// Two intents record a common physical endpoint.
pub open spec fn share_endpoint(a: IntentView, b: IntentView) -> bool {
    exists|i: int, j: int|
        0 <= i < a.members.len() && 0 <= j < b.members.len() && (#[trigger] a.members[i]).endpoint
            == (#[trigger] b.members[j]).endpoint
}

/// Some active intent has reserved an endpoint of this one.
pub open spec fn endpoint_reserved(intents: Seq<IntentView>, intent: IntentView) -> bool {
    exists|i: int| 0 <= i < intents.len() && share_endpoint(#[trigger] intents[i], intent)
}

/// The next generation, or the last one that can be counted.
pub open spec fn saturating_next(generation: u64) -> u64 {
    if generation == u64::MAX {
        u64::MAX
    } else {
        (generation + 1) as u64
    }
}

/// The generations after one more assignment write of a position.
pub open spec fn bumped(
    generations: Seq<AssignmentGeneration>,
    position: u32,
) -> Seq<AssignmentGeneration> {
    match key_index::<AssignmentGeneration>(generations, position as u64) {
        Some(i) => generations.update(
            i,
            AssignmentGeneration {
                position,
                generation: saturating_next(generations[i].generation),
            },
        ),
        None => sorted_by_key::<AssignmentGeneration>(
            generations.push(AssignmentGeneration { position, generation: 1 }),
        ),
    }
}

/// The document with one assignment installed in place of what its position had.
pub open spec fn with_assignment(
    state: ClusterStateView,
    assignment: AssignmentView,
) -> ClusterStateView {
    ClusterStateView {
        assignments: sorted_by_key::<ShardAssignment>(
            without_key::<ShardAssignment>(state.assignments, assignment.position as u64).push(
                assignment,
            ),
        ),
        moves: MovesView {
            assignment_generations: bumped(
                state.moves.assignment_generations,
                assignment.position,
            ),
            ..state.moves
        },
        ..state
    }
}

/// The document with other intents.
pub open spec fn with_intents(
    state: ClusterStateView,
    intents: Seq<IntentView>,
) -> ClusterStateView {
    ClusterStateView { moves: MovesView { intents, ..state.moves }, ..state }
}

/// The document marked as having observed the move protocol.
pub open spec fn format_fenced(state: ClusterStateView) -> ClusterStateView {
    ClusterStateView {
        moves: MovesView { format_version: MOVE_CONTROL_FORMAT_CURRENT, ..state.moves },
        ..state
    }
}

/// What a begin decides.
pub open spec fn begin_outcome(state: ClusterStateView, intent: IntentView) -> MoveCommandOutcome {
    let intents = state.moves.intents;
    if !begin_valid(state, intent) {
        MoveCommandOutcome::Invalid
    } else if operation_index(intents, intent.operation_id) is Some {
        if intents[operation_index(intents, intent.operation_id)->0].same_transition(intent) {
            MoveCommandOutcome::AlreadyApplied
        } else {
            MoveCommandOutcome::Conflict
        }
    } else if has_key::<MoveIntent>(intents, intent.position as u64) || endpoint_reserved(
        intents,
        intent,
    ) || !predicate_holds(state, intent) {
        MoveCommandOutcome::Conflict
    } else {
        MoveCommandOutcome::Applied
    }
}

/// What a command decides on a document.
pub open spec fn move_outcome(
    state: ClusterStateView,
    command: CommandView,
) -> MoveCommandOutcome {
    let intents = state.moves.intents;
    let found = operation_index(intents, command.operation());
    let current = intents[found->0];
    match command {
        CommandView::Begin(intent) => begin_outcome(state, intent),
        CommandView::MarkReady { evidence, .. } => if found is None {
            MoveCommandOutcome::Conflict
        } else if !evidence_fits(current, evidence) {
            MoveCommandOutcome::Invalid
        } else {
            match current.phase {
                PhaseView::Preparing => if predicate_holds(state, current) {
                    MoveCommandOutcome::Applied
                } else {
                    MoveCommandOutcome::Conflict
                },
                PhaseView::Ready(recorded) => if recorded == evidence {
                    MoveCommandOutcome::AlreadyApplied
                } else {
                    MoveCommandOutcome::Conflict
                },
                PhaseView::Committed(recorded) => if recorded == evidence {
                    MoveCommandOutcome::AlreadyApplied
                } else {
                    MoveCommandOutcome::Conflict
                },
            }
        },
        CommandView::Commit { .. } => if found is None {
            MoveCommandOutcome::Conflict
        } else {
            match current.phase {
                PhaseView::Preparing => MoveCommandOutcome::Conflict,
                PhaseView::Ready(_) => if predicate_holds(state, current) {
                    MoveCommandOutcome::Applied
                } else {
                    MoveCommandOutcome::Conflict
                },
                PhaseView::Committed(_) => if state.assignment(current.position) == Some(
                    current.desired,
                ) {
                    MoveCommandOutcome::AlreadyApplied
                } else {
                    MoveCommandOutcome::Conflict
                },
            }
        },
        CommandView::Abort { .. } => if found is None {
            MoveCommandOutcome::AlreadyApplied
        } else if current.phase is Preparing && current.initial_authority is Expected
            && identities_hold(state, current) {
            MoveCommandOutcome::Applied
        } else {
            MoveCommandOutcome::Conflict
        },
        CommandView::Finish { .. } => if found is None {
            MoveCommandOutcome::AlreadyApplied
        } else if current.phase is Committed && state.assignment(current.position) == Some(
            current.desired,
        ) && identities_hold(state, current) {
            MoveCommandOutcome::Applied
        } else {
            MoveCommandOutcome::Conflict
        },
    }
}

/// The document after a command: marked with the current format in any case, and changed
/// further only where the command is applied.
pub open spec fn move_state(state: ClusterStateView, command: CommandView) -> ClusterStateView {
    let fenced = format_fenced(state);
    let intents = state.moves.intents;
    if move_outcome(state, command) != MoveCommandOutcome::Applied {
        fenced
    } else {
        let i = operation_index(intents, command.operation())->0;
        let current = intents[i];
        match command {
            CommandView::Begin(intent) => with_intents(
                fenced,
                sorted_by_key::<MoveIntent>(intents.push(intent)),
            ),
            CommandView::MarkReady { evidence, .. } => with_intents(
                fenced,
                intents.update(i, current.in_phase(PhaseView::Ready(evidence))),
            ),
            CommandView::Commit { .. } => with_intents(
                with_assignment(fenced, current.desired),
                intents.update(
                    i,
                    current.in_phase(PhaseView::Committed(current.phase->Ready_0)),
                ),
            ),
            CommandView::Abort { .. } => with_intents(fenced, intents.remove(i)),
            CommandView::Finish { .. } => with_intents(fenced, intents.remove(i)),
        }
    }
}

// ---- Assignment generations ----------------------------------------------------------------

impl MoveControlState {
    /// Records one more assignment write of `position`.
    pub fn bump_assignment_generation(&mut self, position: u32)
        ensures
            final(self)@ == (MovesView {
                assignment_generations: bumped(old(self)@.assignment_generations, position),
                ..old(self)@
            }),
    {
        proof {
            crate::document::lemma_plain_views(self.assignment_generations@);
        }
        match find_key(&self.assignment_generations, position as u64) {
            Some(i) => {
                let entry = self.assignment_generations[i];
                self.assignment_generations.set(
                    i,
                    AssignmentGeneration {
                        position,
                        generation: entry.generation.saturating_add(1),
                    },
                );
            },
            None => {
                let mut generations: Vec<AssignmentGeneration> = Vec::new();
                std::mem::swap(&mut generations, &mut self.assignment_generations);
                generations.push(AssignmentGeneration { position, generation: 1 });
                proof {
                    crate::document::lemma_plain_views(generations@);
                }
                self.assignment_generations = sort_by_key(generations);
                proof {
                    crate::document::lemma_plain_views(self.assignment_generations@);
                }
            },
        }
    }

    /// Forgets the generations of positions that no longer exist. Intents are kept: one whose
    /// position a resize removed must be seen and rejected, never silently forgotten.
    pub fn retain_positions_below(&mut self, num_shards: u32)
        ensures
            final(self)@ == (MovesView {
                assignment_generations: keys_below::<AssignmentGeneration>(
                    old(self)@.assignment_generations,
                    num_shards as u64,
                ),
                ..old(self)@
            }),
    {
        let mut generations: Vec<AssignmentGeneration> = Vec::new();
        std::mem::swap(&mut generations, &mut self.assignment_generations);
        proof {
            crate::document::lemma_plain_views(generations@);
        }
        self.assignment_generations = keep_below(generations, num_shards as u64);
        proof {
            crate::document::lemma_plain_views(self.assignment_generations@);
        }
    }
}

// ---- Preconditions -------------------------------------------------------------------------

/// The nodes of an assignment in increasing order, where no node is named twice.
fn assignment_nodes(assignment: &ShardAssignment) -> (r: Option<Vec<NodeId>>)
    ensures
        match r {
            Some(nodes) => {
                &&& assignment@.nodes().no_duplicates()
                &&& canonical::<NodeId>(nodes@)
                &&& forall|n: NodeId|
                    nodes@.contains(n) <==> #[trigger] assignment@.nodes().contains(n)
            },
            None => !assignment@.nodes().no_duplicates(),
        },
{
    let ghost all = assignment@.nodes();
    let mut nodes: Vec<NodeId> = Vec::new();
    nodes.push(assignment.primary);
    let mut i: usize = 0;
    assert(all.take(1) =~= seq![assignment.primary]);
    assert(nodes@ =~= seq![assignment.primary]);
    while i < assignment.replicas.len()
        invariant
            i <= assignment.replicas.len(),
            all == assignment@.nodes(),
            all.len() == assignment.replicas.len() + 1,
            all.take(i + 1).no_duplicates(),
            canonical::<NodeId>(nodes@),
            forall|n: NodeId| nodes@.contains(n) <==> #[trigger] all.take(i + 1).contains(n),
        decreases assignment.replicas.len() - i,
    {
        let node = assignment.replicas[i];
        let ghost before = all.take(i + 1);
        let ghost after = all.take(i + 2);
        assert(after =~= before.push(node));
        assert(views(nodes@) =~= nodes@);
        match find_key(&nodes, node.0) {
            Some(j) => {
                proof {
                    assert(nodes@[j as int] == node);
                    assert(before.contains(node));
                    let m = choose|m: int| 0 <= m < before.len() && before[m] == node;
                    assert(all[m] == node && all[i + 1] == node);
                }
                return None;
            },
            None => {
                proof {
                    assert(!nodes@.contains(node)) by {
                        if nodes@.contains(node) {
                            let m = choose|m: int| 0 <= m < nodes@.len() && nodes@[m] == node;
                            assert(NodeId::key_of(views(nodes@)[m]) == node.0);
                        }
                    }
                    assert(!before.contains(node));
                    lemma_place_canonical::<NodeId>(nodes@, node);
                    lemma_place_contains::<NodeId>(nodes@, node);
                    lemma_push_contains(before, node);
                    assert(after.no_duplicates()) by {
                        assert forall|a: int, b: int|
                            0 <= a < after.len() && 0 <= b < after.len() && a
                                != b implies after[a] != after[b] by {
                            if a == before.len() {
                                assert(before[b] == after[b]);
                                assert(before.contains(after[b]));
                            } else if b == before.len() {
                                assert(before[a] == after[a]);
                                assert(before.contains(after[a]));
                            }
                        }
                    }
                }
                insert_by_key(&mut nodes, node);
                assert(views(nodes@) =~= nodes@);
            },
        }
        i = i + 1;
    }
    assert(all.take(all.len() as int) =~= all);
    Some(nodes)
}

proof fn lemma_push_contains(s: Seq<NodeId>, v: NodeId)
    ensures
        forall|n: NodeId| #[trigger] s.push(v).contains(n) <==> (s.contains(n) || n == v),
{
    assert forall|n: NodeId| #[trigger] s.push(v).contains(n) <==> (s.contains(n) || n == v) by {
        let p = s.push(v);
        if p.contains(n) {
            let i = choose|i: int| 0 <= i < p.len() && p[i] == n;
            if i < s.len() {
                assert(s[i] == n);
            }
        }
        if s.contains(n) {
            let i = choose|i: int| 0 <= i < s.len() && s[i] == n;
            assert(p[i] == n);
        }
        assert(p[s.len() as int] == v);
    }
}

/// The nodes of both assignments of a transition in increasing order, where neither
/// assignment names a node twice.
fn expected_member_nodes(expected: &ShardAssignment, desired: &ShardAssignment) -> (r: Option<
    Vec<NodeId>,
>)
    ensures
        match r {
            Some(nodes) => {
                &&& expected@.nodes().no_duplicates()
                &&& desired@.nodes().no_duplicates()
                &&& canonical::<NodeId>(nodes@)
                &&& forall|n: NodeId|
                    nodes@.contains(n) <==> (#[trigger] expected@.nodes().contains(n)
                        || desired@.nodes().contains(n))
            },
            None => !(expected@.nodes().no_duplicates() && desired@.nodes().no_duplicates()),
        },
{
    let mut nodes: Vec<NodeId> = match assignment_nodes(expected) {
        Some(nodes) => nodes,
        None => {
            return None;
        },
    };
    let more: Vec<NodeId> = match assignment_nodes(desired) {
        Some(more) => more,
        None => {
            return None;
        },
    };
    let ghost start = nodes@;
    let mut i: usize = 0;
    while i < more.len()
        invariant
            i <= more.len(),
            canonical::<NodeId>(nodes@),
            forall|n: NodeId| start.contains(n) ==> nodes@.contains(n),
            forall|m: int| 0 <= m < i ==> nodes@.contains(#[trigger] more@[m]),
            forall|n: NodeId| #[trigger]
                nodes@.contains(n) ==> start.contains(n) || more@.contains(n),
        decreases more.len() - i,
    {
        let node = more[i];
        assert(views(nodes@) =~= nodes@);
        assert(more@.contains(node));
        match find_key(&nodes, node.0) {
            Some(j) => {
                assert(nodes@[j as int] == node);
                assert(nodes@.contains(node));
            },
            None => {
                proof {
                    lemma_place_canonical::<NodeId>(nodes@, node);
                    lemma_place_contains::<NodeId>(nodes@, node);
                }
                let ghost before = nodes@;
                insert_by_key(&mut nodes, node);
                assert(views(nodes@) =~= nodes@);
                assert(nodes@ == place::<NodeId>(before, node));
                assert forall|n: NodeId| #[trigger]
                    nodes@.contains(n) <==> (before.contains(n) || n == node) by {}
            },
        }
        i = i + 1;
    }
    Some(nodes)
}

/// The nodes that a sequence keyed by node names, in its order.
pub open spec fn named_nodes<T: Keyed>(s: Seq<T::V>) -> Seq<NodeId> {
    s.map_values(|v: T::V| NodeId(T::key_of(v)))
}

/// Being in increasing order and naming exactly a set of nodes fixes what is named.
pub proof fn lemma_named_nodes<T: Keyed>(s: Seq<T::V>, nodes: Seq<NodeId>)
    requires
        canonical::<NodeId>(nodes),
    ensures
        (canonical::<T>(s) && forall|n: NodeId|
            has_key::<T>(s, n.0) <==> #[trigger] nodes.contains(n)) <==> named_nodes::<T>(s)
            == nodes,
{
    let ids = named_nodes::<T>(s);
    assert forall|n: NodeId| #[trigger] ids.contains(n) <==> has_key::<T>(s, n.0) by {
        if ids.contains(n) {
            let i = choose|i: int| 0 <= i < ids.len() && ids[i] == n;
            assert(T::key_of(s[i]) == n.0);
        }
        if has_key::<T>(s, n.0) {
            let i = choose|i: int| 0 <= i < s.len() && T::key_of(#[trigger] s[i]) == n.0;
            assert(ids[i] == n);
        }
    }
    if canonical::<T>(s) && forall|n: NodeId|
        has_key::<T>(s, n.0) <==> #[trigger] nodes.contains(n) {
        assert forall|i: int, j: int| 0 <= i < j < ids.len() implies NodeId::key_of(
            #[trigger] ids[i],
        ) < NodeId::key_of(#[trigger] ids[j]) by {
            assert(T::key_of(s[i]) < T::key_of(s[j]));
        }
        assert forall|n: NodeId| ids.contains(n) <==> nodes.contains(n) by {
            assert(ids.contains(n) <==> has_key::<T>(s, n.0));
        }
        lemma_canonical_unique::<NodeId>(ids, nodes);
    }
    if ids == nodes {
        assert forall|i: int, j: int| 0 <= i < j < s.len() implies T::key_of(#[trigger] s[i])
            < T::key_of(#[trigger] s[j]) by {
            assert(NodeId::key_of(ids[i]) < NodeId::key_of(ids[j]));
        }
        assert forall|n: NodeId| has_key::<T>(s, n.0) <==> #[trigger] nodes.contains(n) by {
            assert(ids.contains(n) <==> has_key::<T>(s, n.0));
        }
    }
}

/// Whether `v` names exactly `nodes`, in order.
pub fn names_exactly<T: Keyed>(v: &Vec<T>, nodes: &Vec<NodeId>) -> (r: bool)
    ensures
        r == (named_nodes::<T>(views(v@)) == nodes@),
{
    if v.len() != nodes.len() {
        assert(named_nodes::<T>(views(v@)).len() != nodes@.len());
        return false;
    }
    let mut i: usize = 0;
    while i < v.len()
        invariant
            i <= v.len(),
            v.len() == nodes.len(),
            forall|j: int| 0 <= j < i ==> NodeId(T::key_of((#[trigger] v@[j])@)) == nodes@[j],
        decreases v.len() - i,
    {
        if v[i].key() != nodes[i].0 {
            assert(named_nodes::<T>(views(v@))[i as int] != nodes@[i as int]);
            return false;
        }
        i = i + 1;
    }
    assert(named_nodes::<T>(views(v@)) =~= nodes@);
    true
}

/// Whether an assignment names a node.
pub fn names_node(assignment: &ShardAssignment, node: NodeId) -> (r: bool)
    ensures
        r == assignment@.nodes().contains(node),
{
    let ghost all = assignment@.nodes();
    if assignment.primary == node {
        assert(all[0] == node);
        return true;
    }
    let mut i: usize = 0;
    while i < assignment.replicas.len()
        invariant
            i <= assignment.replicas.len(),
            all == assignment@.nodes(),
            assignment.primary != node,
            forall|j: int| 0 <= j < i ==> assignment.replicas@[j] != node,
        decreases assignment.replicas.len() - i,
    {
        if assignment.replicas[i] == node {
            assert(all[i + 1] == node);
            return true;
        }
        i = i + 1;
    }
    assert(!all.contains(node)) by {
        if all.contains(node) {
            let m = choose|m: int| 0 <= m < all.len() && all[m] == node;
            if m > 0 {
                assert(assignment.replicas@[m - 1] == node);
            }
        }
    }
    false
}

/// Whether the members that an assignment names are at distinct endpoints.
pub fn endpoints_distinct(
    assignment: &ShardAssignment,
    members: &Vec<MoveMemberIdentity>,
) -> (r: bool)
    ensures
        r == distinct_endpoints(assignment@, views(members@)),
{
    let ghost all = views(members@);
    let mut i: usize = 0;
    while i < members.len()
        invariant
            i <= members.len(),
            all == views(members@),
            forall|a: int, b: int|
                0 <= a < b < members.len() && a < i && assignment@.nodes().contains(
                    (#[trigger] all[a]).node,
                ) && assignment@.nodes().contains((#[trigger] all[b]).node) ==> all[a].endpoint
                    != all[b].endpoint,
        decreases members.len() - i,
    {
        if names_node(assignment, members[i].node) {
            let mut j: usize = i + 1;
            while j < members.len()
                invariant
                    i < j <= members.len(),
                    all == views(members@),
                    assignment@.nodes().contains(all[i as int].node),
                    forall|b: int|
                        i < b < j && assignment@.nodes().contains((#[trigger] all[b]).node)
                            ==> all[i as int].endpoint != all[b].endpoint,
                decreases members.len() - j,
            {
                if names_node(assignment, members[j].node) && members[i].endpoint
                    == members[j].endpoint {
                    assert(all[i as int].endpoint == all[j as int].endpoint);
                    return false;
                }
                j = j + 1;
            }
        } else {
            assert(!assignment@.nodes().contains(all[i as int].node));
        }
        i = i + 1;
    }
    true
}

/// Whether the document registers the member at its recorded endpoint.
fn identity_matches(state: &ClusterState, member: &MoveMemberIdentity) -> (r: bool)
    ensures
        r == identity_holds(state@, member@),
{
    let own = normalized_move_endpoint(member.endpoint.as_str());
    if member.endpoint.as_str().is_empty() || member.endpoint != own {
        return false;
    }
    match state.endpoint(member.node) {
        Some(registered) => normalized_move_endpoint(registered.as_str()) == member.endpoint,
        None => false,
    }
}

/// Whether every recorded identity is the one that the document registers.
pub fn identities_match(state: &ClusterState, intent: &MoveIntent) -> (r: bool)
    ensures
        r == identities_hold(state@, intent@),
{
    let nodes = match expected_member_nodes(&intent.expected, &intent.desired) {
        Some(nodes) => nodes,
        None => {
            return false;
        },
    };
    proof {
        lemma_named_nodes::<MoveMemberIdentity>(intent@.members, nodes@);
    }
    if !names_exactly(&intent.members, &nodes) {
        assert(!members_cover(intent@)) by {
            if members_cover(intent@) {
                assert forall|n: NodeId|
                    has_key::<MoveMemberIdentity>(intent@.members, n.0)
                        <==> #[trigger] nodes@.contains(n) by {
                    let named = intent@.expected.nodes().contains(n)
                        || intent@.desired.nodes().contains(n);
                    assert(has_key::<MoveMemberIdentity>(intent@.members, n.0) <==> named);
                    assert(nodes@.contains(n) <==> (intent.expected@.nodes().contains(n)
                        || intent.desired@.nodes().contains(n)));
                }
            }
        }
        return false;
    }
    assert(members_cover(intent@)) by {
        assert forall|n: NodeId|
            has_key::<MoveMemberIdentity>(intent@.members, n.0) <==> (
            #[trigger] intent@.expected.nodes().contains(n) || intent@.desired.nodes().contains(
                n,
            )) by {
            assert(nodes@.contains(n) <==> (intent@.expected.nodes().contains(n)
                || intent@.desired.nodes().contains(n)));
        }
    }
    let mut i: usize = 0;
    while i < intent.members.len()
        invariant
            i <= intent.members.len(),
            forall|j: int|
                0 <= j < i ==> identity_holds(state@, #[trigger] intent@.members[j]),
        decreases intent.members.len() - i,
    {
        assert(intent@.members[i as int] == intent.members@[i as int]@);
        if !identity_matches(state, &intent.members[i]) {
            return false;
        }
        i = i + 1;
    }
    endpoints_distinct(&intent.expected, &intent.members) && endpoints_distinct(
        &intent.desired,
        &intent.members,
    )
}

/// Whether an intent may begin at all.
pub fn valid_begin(state: &ClusterState, intent: &MoveIntent) -> (r: bool)
    ensures
        r == begin_valid(state@, intent@),
{
    let generation_given = match intent.initial_authority {
        MoveInitialAuthority::Expected => intent.live_generation != 0,
        MoveInitialAuthority::Desired => true,
    };
    let preparing = match intent.phase {
        MoveIntentPhase::Preparing => true,
        _ => false,
    };
    intent.intent_version == MOVE_INTENT_VERSION && intent.operation_id != 0 && intent.position
        < state.num_shards && intent.expected.position == intent.position
        && intent.desired.position == intent.position && intent.expected != intent.desired
        && generation_given && preparing && identities_match(state, intent)
}

/// Whether the evidence is of the intent's generation and of exactly its desired members.
pub fn evidence_matches(intent: &MoveIntent, evidence: &MoveRecoveryEvidence) -> (r: bool)
    ensures
        r == evidence_fits(intent@, evidence@),
{
    let nodes = match assignment_nodes(&intent.desired) {
        Some(nodes) => nodes,
        None => {
            return false;
        },
    };
    proof {
        lemma_named_nodes::<MoveMemberEvidence>(evidence@.members, nodes@);
        assert(views(evidence.members@) =~= evidence.members@);
        assert((forall|n: NodeId|
            has_key::<MoveMemberEvidence>(evidence@.members, n.0)
                <==> #[trigger] nodes@.contains(n))
            <==> (forall|n: NodeId|
            has_key::<MoveMemberEvidence>(evidence@.members, n.0)
                <==> #[trigger] intent@.desired.nodes().contains(n))) by {
            assert forall|n: NodeId| #[trigger] nodes@.contains(n)
                <==> intent@.desired.nodes().contains(n) by {}
        }
    }
    names_exactly(&evidence.members, &nodes) && evidence.live_generation == intent.live_generation
}

/// Whether the document still is what the intent was planned against.
pub fn assignment_matches_expected(state: &ClusterState, intent: &MoveIntent) -> (r: bool)
    ensures
        r == predicate_holds(state@, intent@),
{
    let current = match state.assignment(intent.position) {
        Some(assignment) => *assignment == intent.expected,
        None => false,
    };
    current && state.moves.assignment_generation(intent.position)
        == intent.expected_assignment_generation && state.placement_generation
        == intent.placement_generation && identities_match(state, intent)
}

// ---- Applying a command --------------------------------------------------------------------

/// Installs an assignment in place of what its position had, and records the write.
pub fn replace_assignment(state: &mut ClusterState, assignment: ShardAssignment)
    ensures
        final(state)@ == with_assignment(old(state)@, assignment@),
{
    let position: u32 = assignment.position;
    let mut assignments: Vec<ShardAssignment> = Vec::new();
    std::mem::swap(&mut assignments, &mut state.assignments);
    let mut kept = drop_key(assignments, position as u64);
    let ghost before = kept@;
    kept.push(assignment);
    assert(views(kept@) =~= views(before).push(assignment@));
    state.assignments = sort_by_key(kept);
    state.moves.bump_assignment_generation(position);
}

proof fn lemma_operation_index(intents: Seq<IntentView>, operation: u64, i: int)
    requires
        first_operation_at(intents, operation, i),
    ensures
        operation_index(intents, operation) == Some(i),
{
    let c = choose|c: int| first_operation_at(intents, operation, c);
    assert(first_operation_at(intents, operation, c));
    if c < i {
        assert(intents[c].operation_id != operation);
    } else if i < c {
        assert(intents[i].operation_id != operation);
    }
}

/// The index of the intent with an operation id.
pub fn find_operation(intents: &Vec<MoveIntent>, operation_id: u64) -> (r: Option<usize>)
    ensures
        match r {
            Some(i) => {
                &&& first_operation_at(views(intents@), operation_id, i as int)
                &&& operation_index(views(intents@), operation_id) == Some(i as int)
            },
            None => operation_index(views(intents@), operation_id) is None,
        },
{
    let ghost all = views(intents@);
    let mut i: usize = 0;
    while i < intents.len()
        invariant
            i <= intents.len(),
            all == views(intents@),
            forall|j: int| 0 <= j < i ==> (#[trigger] all[j]).operation_id != operation_id,
        decreases intents.len() - i,
    {
        assert(all[i as int] == intents@[i as int]@);
        if intents[i].operation_id == operation_id {
            proof {
                lemma_operation_index(all, operation_id, i as int);
            }
            return Some(i);
        }
        i = i + 1;
    }
    None
}

/// Whether two intents record a common physical endpoint.
pub fn shares_endpoint(a: &MoveIntent, b: &MoveIntent) -> (r: bool)
    ensures
        r == share_endpoint(a@, b@),
{
    let mut i: usize = 0;
    while i < a.members.len()
        invariant
            i <= a.members.len(),
            forall|k: int, l: int|
                0 <= k < i && 0 <= l < b.members.len() ==> (#[trigger] a@.members[k]).endpoint
                    != (#[trigger] b@.members[l]).endpoint,
        decreases a.members.len() - i,
    {
        assert(a@.members[i as int] == a.members@[i as int]@);
        let mut j: usize = 0;
        while j < b.members.len()
            invariant
                i < a.members.len(),
                j <= b.members.len(),
                a@.members[i as int] == a.members@[i as int]@,
                forall|l: int|
                    0 <= l < j ==> a@.members[i as int].endpoint != (
                    #[trigger] b@.members[l]).endpoint,
            decreases b.members.len() - j,
        {
            assert(b@.members[j as int] == b.members@[j as int]@);
            if a.members[i].endpoint == b.members[j].endpoint {
                assert(a@.members[i as int].endpoint == b@.members[j as int].endpoint);
                return true;
            }
            j = j + 1;
        }
        i = i + 1;
    }
    false
}

/// Whether some active intent has reserved an endpoint of this one.
fn endpoint_taken(intents: &Vec<MoveIntent>, intent: &MoveIntent) -> (r: bool)
    ensures
        r == endpoint_reserved(views(intents@), intent@),
{
    let ghost all = views(intents@);
    let mut i: usize = 0;
    while i < intents.len()
        invariant
            i <= intents.len(),
            all == views(intents@),
            forall|j: int| 0 <= j < i ==> !share_endpoint(#[trigger] all[j], intent@),
        decreases intents.len() - i,
    {
        assert(all[i as int] == intents@[i as int]@);
        if shares_endpoint(&intents[i], intent) {
            return true;
        }
        i = i + 1;
    }
    false
}

fn set_phase(intents: &mut Vec<MoveIntent>, index: usize, phase: MoveIntentPhase)
    requires
        index < old(intents).len(),
    ensures
        views(final(intents)@) == views(old(intents)@).update(
            index as int,
            views(old(intents)@)[index as int].in_phase(phase@),
        ),
{
    let mut intent = intents[index].clone();
    intent.phase = phase;
    intents.set(index, intent);
    assert(views(intents@) =~= views(old(intents)@).update(
        index as int,
        views(old(intents)@)[index as int].in_phase(phase@),
    ));
}

fn apply_begin(state: &mut ClusterState, intent: MoveIntent) -> (outcome: MoveCommandOutcome)
    requires
        old(state)@.moves.format_version == MOVE_CONTROL_FORMAT_CURRENT,
    ensures
        outcome == begin_outcome(old(state)@, intent@),
        final(state)@ == move_state(old(state)@, CommandView::Begin(intent@)),
{
    assert(format_fenced(state@) == state@);
    if !valid_begin(state, &intent) {
        return MoveCommandOutcome::Invalid;
    }
    match find_operation(&state.moves.intents, intent.operation_id) {
        Some(index) => {
            if state.moves.intents[index].same_transition(&intent) {
                return MoveCommandOutcome::AlreadyApplied;
            } else {
                return MoveCommandOutcome::Conflict;
            }
        },
        None => {},
    }
    match find_key(&state.moves.intents, intent.position as u64) {
        Some(index) => {
            // An intent with another operation id holds the position.
            return MoveCommandOutcome::Conflict;
        },
        None => {},
    }
    if endpoint_taken(&state.moves.intents, &intent) || !assignment_matches_expected(
        state,
        &intent,
    ) {
        return MoveCommandOutcome::Conflict;
    }
    let mut intents: Vec<MoveIntent> = Vec::new();
    std::mem::swap(&mut intents, &mut state.moves.intents);
    let ghost before = intents@;
    intents.push(intent);
    assert(views(intents@) =~= views(before).push(intent@));
    state.moves.intents = sort_by_key(intents);
    MoveCommandOutcome::Applied
}

fn apply_mark_ready(
    state: &mut ClusterState,
    operation_id: u64,
    evidence: MoveRecoveryEvidence,
) -> (outcome: MoveCommandOutcome)
    requires
        old(state)@.moves.format_version == MOVE_CONTROL_FORMAT_CURRENT,
    ensures
        ({
            let command = CommandView::MarkReady { operation_id, evidence: evidence@ };
            &&& outcome == move_outcome(old(state)@, command)
            &&& final(state)@ == move_state(old(state)@, command)
        }),
{
    assert(format_fenced(state@) == state@);
    let index: usize = match find_operation(&state.moves.intents, operation_id) {
        Some(index) => index,
        None => {
            return MoveCommandOutcome::Conflict;
        },
    };
    let intent = &state.moves.intents[index];
    if !evidence_matches(intent, &evidence) {
        return MoveCommandOutcome::Invalid;
    }
    match &intent.phase {
        MoveIntentPhase::Preparing => {
            if !assignment_matches_expected(state, intent) {
                return MoveCommandOutcome::Conflict;
            }
        },
        MoveIntentPhase::Ready(current) => {
            return if *current == evidence {
                MoveCommandOutcome::AlreadyApplied
            } else {
                MoveCommandOutcome::Conflict
            };
        },
        MoveIntentPhase::Committed(current) => {
            return if *current == evidence {
                MoveCommandOutcome::AlreadyApplied
            } else {
                MoveCommandOutcome::Conflict
            };
        },
    }
    set_phase(&mut state.moves.intents, index, MoveIntentPhase::Ready(evidence));
    MoveCommandOutcome::Applied
}

fn apply_commit(state: &mut ClusterState, operation_id: u64) -> (outcome: MoveCommandOutcome)
    requires
        old(state)@.moves.format_version == MOVE_CONTROL_FORMAT_CURRENT,
    ensures
        outcome == move_outcome(old(state)@, CommandView::Commit { operation_id }),
        final(state)@ == move_state(old(state)@, CommandView::Commit { operation_id }),
{
    assert(format_fenced(state@) == state@);
    let index: usize = match find_operation(&state.moves.intents, operation_id) {
        Some(index) => index,
        None => {
            return MoveCommandOutcome::Conflict;
        },
    };
    let intent = state.moves.intents[index].clone();
    match &intent.phase {
        MoveIntentPhase::Preparing => MoveCommandOutcome::Conflict,
        MoveIntentPhase::Ready(evidence) => {
            if !assignment_matches_expected(state, &intent) {
                return MoveCommandOutcome::Conflict;
            }
            replace_assignment(state, intent.desired.clone());
            set_phase(
                &mut state.moves.intents,
                index,
                MoveIntentPhase::Committed(evidence.clone()),
            );
            MoveCommandOutcome::Applied
        },
        MoveIntentPhase::Committed(_) => {
            let installed = match state.assignment(intent.position) {
                Some(assignment) => *assignment == intent.desired,
                None => false,
            };
            if installed {
                MoveCommandOutcome::AlreadyApplied
            } else {
                MoveCommandOutcome::Conflict
            }
        },
    }
}

fn remove_intent(intents: &mut Vec<MoveIntent>, index: usize)
    requires
        index < old(intents).len(),
    ensures
        views(final(intents)@) == views(old(intents)@).remove(index as int),
{
    intents.remove(index);
    assert(views(intents@) =~= views(old(intents)@).remove(index as int));
}

fn apply_abort(state: &mut ClusterState, operation_id: u64) -> (outcome: MoveCommandOutcome)
    requires
        old(state)@.moves.format_version == MOVE_CONTROL_FORMAT_CURRENT,
    ensures
        outcome == move_outcome(old(state)@, CommandView::Abort { operation_id }),
        final(state)@ == move_state(old(state)@, CommandView::Abort { operation_id }),
{
    assert(format_fenced(state@) == state@);
    let index: usize = match find_operation(&state.moves.intents, operation_id) {
        Some(index) => index,
        None => {
            return MoveCommandOutcome::AlreadyApplied;
        },
    };
    let intent = &state.moves.intents[index];
    let preparing = match intent.phase {
        MoveIntentPhase::Preparing => true,
        _ => false,
    };
    if !preparing || intent.initial_authority != MoveInitialAuthority::Expected
        || !identities_match(state, intent) {
        return MoveCommandOutcome::Conflict;
    }
    remove_intent(&mut state.moves.intents, index);
    MoveCommandOutcome::Applied
}

fn apply_finish(state: &mut ClusterState, operation_id: u64) -> (outcome: MoveCommandOutcome)
    requires
        old(state)@.moves.format_version == MOVE_CONTROL_FORMAT_CURRENT,
    ensures
        outcome == move_outcome(old(state)@, CommandView::Finish { operation_id }),
        final(state)@ == move_state(old(state)@, CommandView::Finish { operation_id }),
{
    assert(format_fenced(state@) == state@);
    let index: usize = match find_operation(&state.moves.intents, operation_id) {
        Some(index) => index,
        None => {
            return MoveCommandOutcome::AlreadyApplied;
        },
    };
    let intent = &state.moves.intents[index];
    let committed = match intent.phase {
        MoveIntentPhase::Committed(_) => true,
        _ => false,
    };
    let installed = match state.assignment(intent.position) {
        Some(assignment) => *assignment == intent.desired,
        None => false,
    };
    if !committed || !installed || !identities_match(state, intent) {
        return MoveCommandOutcome::Conflict;
    }
    remove_intent(&mut state.moves.intents, index);
    MoveCommandOutcome::Applied
}

/// Applies one move command. The caller owns the epoch.
///
/// The document is marked with the current move format even where the command is malformed or
/// loses its race: otherwise a rejected command could be hidden from a reader of an older
/// format that joins from the resulting snapshot.
pub fn apply_move(state: &mut ClusterState, command: MoveCommand) -> (outcome: MoveCommandOutcome)
    ensures
        outcome == move_outcome(old(state)@, command@),
        final(state)@ == move_state(old(state)@, command@),
{
    state.moves.format_version = MOVE_CONTROL_FORMAT_CURRENT;
    proof {
        lemma_format_irrelevant(old(state)@, command@);
    }
    match command {
        MoveCommand::Begin(intent) => apply_begin(state, intent),
        MoveCommand::MarkReady { operation_id, evidence } => apply_mark_ready(
            state,
            operation_id,
            evidence,
        ),
        MoveCommand::Commit { operation_id } => apply_commit(state, operation_id),
        MoveCommand::Abort { operation_id } => apply_abort(state, operation_id),
        MoveCommand::Finish { operation_id } => apply_finish(state, operation_id),
    }
}

/// What a command decides, and what it leaves, does not depend on the format that the document
/// had.
pub proof fn lemma_format_irrelevant(state: ClusterStateView, command: CommandView)
    ensures
        move_outcome(format_fenced(state), command) == move_outcome(state, command),
        move_state(format_fenced(state), command) == move_state(state, command),
{
    let fenced = format_fenced(state);
    assert(format_fenced(fenced) == fenced);
    assert forall|m: MemberView| identity_holds(fenced, m) == identity_holds(state, m) by {}
    assert forall|i: IntentView| #[trigger] identities_hold(fenced, i) == identities_hold(
        state,
        i,
    ) by {}
    assert forall|i: IntentView| #[trigger] predicate_holds(fenced, i) == predicate_holds(
        state,
        i,
    ) by {}
}

} // verus!
