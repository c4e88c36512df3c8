//! Errors of the control plane and of the shard operations built on it. Each error is a value
//! that callers can act on, and has a message for operators.

use vstd::prelude::*;
use vstd::string::StringExecFns;

use crate::document::NodeId;
use crate::text::{debug_text, decimal, digits, quoted};

verus! {

/// Why a control-plane operation could not commit.
#[derive(Debug, PartialEq, Eq)]
pub enum ControlError {
    /// This node is not the leader; retry against `leader` (at `addr`, if known).
    ForwardToLeader { leader: Option<NodeId>, addr: Option<String> },
    /// This node is not the leader and the leader is presently unknown.
    NotLeader,
    /// The proposal could not be committed on a quorum.
    NoQuorum,
    /// A backend or transport error with detail.
    Backend(String),
}

impl Clone for ControlError {
    fn clone(&self) -> (r: Self)
        ensures
            r == *self,
    {
        match self {
            ControlError::ForwardToLeader { leader, addr } => {
                let addr = match addr {
                    Some(a) => Some(a.clone()),
                    None => None,
                };
                ControlError::ForwardToLeader { leader: *leader, addr }
            },
            ControlError::NotLeader => ControlError::NotLeader,
            ControlError::NoQuorum => ControlError::NoQuorum,
            ControlError::Backend(detail) => ControlError::Backend(detail.clone()),
        }
    }
}

/// How `Debug` writes an optional node.
pub open spec fn leader_text(leader: Option<NodeId>) -> Seq<char> {
    match leader {
        Some(node) => "Some(NodeId("@ + digits(node.0 as nat) + "))"@,
        None => "None"@,
    }
}

/// How `Debug` writes an optional address.
pub open spec fn addr_text(addr: Option<String>) -> Seq<char> {
    match addr {
        Some(a) => "Some("@ + debug_text(a@) + ")"@,
        None => "None"@,
    }
}

impl ControlError {
    /// What the message says.
    pub open spec fn text(self) -> Seq<char> {
        match self {
            ControlError::ForwardToLeader { leader, addr } =>
                "not the control-plane leader; forward to "@ + leader_text(leader) + " at "@
                + addr_text(addr),
            ControlError::NotLeader =>
                "this node is not the control-plane leader (leader unknown)"@,
            ControlError::NoQuorum => "control-plane proposal could not reach a quorum"@,
            ControlError::Backend(detail) => "control-plane backend error: "@ + detail@,
        }
    }

    /// The message for an operator.
    pub fn message(&self) -> (out: String)
        ensures
            out@ == self.text(),
    {
        match self {
            ControlError::ForwardToLeader { leader, addr } => {
                let mut out = "not the control-plane leader; forward to ".to_owned();
                let mut leader_out = String::new();
                match leader {
                    Some(node) => {
                        leader_out = "Some(NodeId(".to_owned();
                        leader_out.append(decimal(node.0).as_str());
                        leader_out.append("))");
                    },
                    None => {
                        leader_out = "None".to_owned();
                    },
                }
                out.append(leader_out.as_str());
                out.append(" at ");
                let mut addr_out = String::new();
                match addr {
                    Some(a) => {
                        addr_out = "Some(".to_owned();
                        addr_out.append(quoted(a.as_str()).as_str());
                        addr_out.append(")");
                    },
                    None => {
                        addr_out = "None".to_owned();
                    },
                }
                out.append(addr_out.as_str());
                out
            },
            ControlError::NotLeader => {
                "this node is not the control-plane leader (leader unknown)".to_owned()
            },
            ControlError::NoQuorum => {
                "control-plane proposal could not reach a quorum".to_owned()
            },
            ControlError::Backend(detail) => {
                let mut out = "control-plane backend error: ".to_owned();
                out.append(detail.as_str());
                out
            },
        }
    }
}

/// What a control-plane proof or proposal of a move ran into.
#[derive(Debug, PartialEq, Eq)]
pub enum ControlFault {
    /// The control plane itself failed.
    Control(ControlError),
    /// A planned member has no registered endpoint.
    MemberUnregistered { node: NodeId },
    /// A command lost its conditional predicate.
    LostPredicate { context: String, operation_id: u64 },
    /// A command was rejected as invalid.
    Rejected { context: String, operation_id: u64 },
    /// An intent records no identity for one of its nodes.
    LacksIdentity { operation_id: u64, node: NodeId },
    /// An intent does not fit the document's version, size or placement.
    Incompatible { operation_id: u64 },
    /// An intent's members are not exactly its nodes, in order, at distinct endpoints.
    NonCanonicalMembers { operation_id: u64 },
    /// A recorded member has no endpoint any more.
    EndpointGone { operation_id: u64, node: NodeId },
    /// A recorded member is registered at another endpoint.
    EndpointChanged { operation_id: u64, node: NodeId },
    /// The document no longer has what an uncommitted intent expects.
    ExpectedPredicate { operation_id: u64 },
    /// The document no longer has what a committed intent installed.
    CommittedPredicate { operation_id: u64 },
    /// The intents are not in strictly increasing order of position.
    NonCanonicalPositions,
    /// Two intents share an operation or an endpoint.
    OverlappingIntents,
    /// The expected source is not fenced as recorded.
    SourceFence { operation_id: u64, expected: u64, observed: u64 },
    /// A desired member is fenced.
    DesiredFenced { operation_id: u64, node: NodeId, generation: u64 },
    /// A source that stays in the desired group is still fenced.
    RetainedFenced { operation_id: u64, generation: u64 },
    /// The source of an aborted preparation is still fenced.
    ExpectedFenced { operation_id: u64, generation: u64 },
    /// The desired members are not what the ready intent recorded.
    EvidenceChanged { operation_id: u64 },
    /// Intents kept appearing during startup.
    IntentsChurning,
    /// A position has no committed assignment.
    NoAssignment { position: u64 },
    /// A node of the move has no registered endpoint.
    NodeUnroutable { node: NodeId },
    /// The assignment or the live primary kept changing while planning.
    PlanChurning { position: u64 },
    /// The live source is no registered endpoint.
    LiveSourceUnregistered { endpoint: String },
    /// The live source is the endpoint of several nodes.
    LiveSourceAliased { endpoint: String },
    /// The position has an intent that startup has to resolve.
    UnresolvedIntent { position: u64 },
    /// Live routing does not follow the committed assignment.
    StillRoutes { position: u64, endpoint: String },
    /// There is no node to place shards on.
    NoNodes,
}

/// What a request or the process's own limits make impossible.
#[derive(Debug, PartialEq, Eq)]
pub enum ConfigFault {
    /// The position does not fit the control document.
    PositionTooLarge { position: u64 },
    /// The position has replicas, which a single-target move would drop.
    Replicated { position: u64, replicas: u64 },
    /// The cluster cannot move the position.
    NotHandoffCapable { position: u64 },
    /// Nothing serves the position.
    NoLivePrimary { position: u64 },
    /// What served the position is gone.
    LostLivePrimary { position: u64 },
    /// More live ids than may be enumerated.
    TooManyIds { live: u64, limit: u64 },
    /// The snapshot could not be allocated.
    SnapshotAllocation { detail: String },
    /// The union of ids could not be allocated.
    DirectoryAllocation { detail: String },
    /// The compact directory could not be allocated.
    CompactAllocation { detail: String },
    /// The union holds more ids than a directory may.
    DirectoryTooLarge { limit: u64 },
}

/// What a peer or an index answered against the protocol.
#[derive(Debug, PartialEq, Eq)]
pub enum ProtocolFault {
    /// More rows than were counted.
    CountChanged,
    /// Fewer rows than were counted.
    MissingRows,
    /// One id twice.
    DuplicateRows,
    /// The ids of one physical copy could not be had.
    Enumeration { position: u64, copy: u64, detail: String },
}

/// Why a shard operation failed.
#[derive(Debug, PartialEq, Eq)]
pub enum ShardError {
    Config(ConfigFault),
    ControlPlane(ControlFault),
    Protocol(ProtocolFault),
    /// A peer could not be reached, or refused.
    Remote(String),
    DeadlineExceeded,
}

/// A control-plane error is a shard error with the control-plane error kept inside.
impl From<ControlError> for ShardError {
    fn from(e: ControlError) -> (r: Self) {
        ShardError::ControlPlane(ControlFault::Control(e))
    }
}

impl vstd::std_specs::convert::FromSpecImpl<ControlError> for ShardError {
    open spec fn obeys_from_spec() -> bool {
        true
    }

    open spec fn from_spec(e: ControlError) -> ShardError {
        ShardError::ControlPlane(ControlFault::Control(e))
    }
}

/// A message of one number between two texts.
fn numbered(before: &str, n: u64, after: &str) -> (out: String)
    ensures
        out@ == before@ + digits(n as nat) + after@,
{
    let mut out = before.to_owned();
    out.append(decimal(n).as_str());
    out.append(after);
    out
}

fn paired(before: &str, after: &str) -> (out: String)
    ensures
        out@ == before@ + after@,
{
    let mut out = before.to_owned();
    out.append(after);
    out
}

fn joined(before: &str, middle: &str, after: &str) -> (out: String)
    ensures
        out@ == before@ + middle@ + after@,
{
    let mut out = before.to_owned();
    out.append(middle);
    out.append(after);
    out
}

impl ControlFault {
    /// What the message says.
    pub open spec fn text(self) -> Seq<char> {
        match self {
            ControlFault::Control(e) => e.text(),
            ControlFault::MemberUnregistered { node } => "durable move: node "@ + digits(
                node.0 as nat,
            ) + " has no registered endpoint"@,
            ControlFault::LostPredicate { context, operation_id } => context@ + (
            ": durable move "@ + digits(operation_id as nat)
                + " lost its conditional predicate"@),
            ControlFault::Rejected { context, operation_id } => context@ + (": durable move "@
                + digits(operation_id as nat) + " was rejected as invalid"@),
            ControlFault::LacksIdentity { operation_id, node } => "durable move "@ + digits(
                operation_id as nat,
            ) + " lacks identity for node "@ + digits(node.0 as nat),
            ControlFault::Incompatible { operation_id } => "durable move "@ + digits(
                operation_id as nat,
            ) + " has an incompatible version, position, or placement generation"@,
            ControlFault::NonCanonicalMembers { operation_id } => "durable move "@ + digits(
                operation_id as nat,
            ) + " has an incomplete or non-canonical member identity set"@,
            ControlFault::EndpointGone { operation_id, node } => "durable move "@ + digits(
                operation_id as nat,
            ) + " node "@ + digits(node.0 as nat) + " no longer has an endpoint"@,
            ControlFault::EndpointChanged { operation_id, node } => "durable move "@ + digits(
                operation_id as nat,
            ) + " endpoint identity changed for node "@ + digits(node.0 as nat),
            ControlFault::ExpectedPredicate { operation_id } => "durable move "@ + digits(
                operation_id as nat,
            ) + " expected assignment predicate no longer holds"@,
            ControlFault::CommittedPredicate { operation_id } => "durable move "@ + digits(
                operation_id as nat,
            ) + " committed assignment predicate no longer holds"@,
            ControlFault::NonCanonicalPositions =>
                "durable move state has duplicate or non-canonical positions"@,
            ControlFault::OverlappingIntents =>
                "durable move state has duplicate operation ids or overlapping endpoint reservations"@,
            ControlFault::SourceFence { operation_id, expected, observed } => "durable move "@
                + digits(operation_id as nat) + " expected source fence "@ + digits(expected as nat)
                + ", observed "@ + digits(observed as nat) + "; refusing ambiguous authority"@,
            ControlFault::DesiredFenced { operation_id, node, generation } => "durable move "@
                + digits(operation_id as nat) + " desired member "@ + digits(node.0 as nat)
                + " remains fenced at generation "@ + digits(generation as nat),
            ControlFault::RetainedFenced { operation_id, generation } => "durable move "@ + digits(
                operation_id as nat,
            ) + " retained source could not be unfenced; generation "@ + digits(generation as nat)
                + " remains"@,
            ControlFault::ExpectedFenced { operation_id, generation } => "durable move "@ + digits(
                operation_id as nat,
            ) + " expected source remains fenced at generation "@ + digits(generation as nat)
                + "; refusing to discard the intent"@,
            ControlFault::EvidenceChanged { operation_id } => "durable move "@ + digits(
                operation_id as nat,
            ) + " target evidence changed after readiness; refusing ambiguous cutover"@,
            ControlFault::IntentsChurning =>
                "durable move intents kept appearing during startup recovery; refusing to serve while control state is churning"@,
            ControlFault::NoAssignment { position } =>
                "reassign_and_move: no committed assignment for shard position "@ + digits(
                position as nat,
            ),
            ControlFault::NodeUnroutable { node } => "reassign_and_move: node "@ + digits(
                node.0 as nat,
            ) + " has no registered endpoint (addr)"@,
            ControlFault::PlanChurning { position } =>
                "reassign_and_move: the committed assignment or live primary for shard position "@
                + digits(position as nat)
                + " kept changing while planning (4 attempts); retry once routing stops churning"@,
            ControlFault::LiveSourceUnregistered { endpoint } => "reassign_and_move: live source "@
                + endpoint@
                + " is not a registered membership endpoint; register its authoritative node before moving onward"@,
            ControlFault::LiveSourceAliased { endpoint } => "reassign_and_move: live source "@
                + endpoint@
                + " aliases multiple membership nodes; reconcile that logical identity explicitly before moving onward"@,
            ControlFault::UnresolvedIntent { position } => "reassign_and_move: shard position "@
                + digits(position as nat)
                + " has an unresolved committed move intent; restart the coordinator so startup can attest the recorded cutover before repairing live routing"@,
            ControlFault::StillRoutes { position, endpoint } => (
            "reassign_and_move: shard position "@ + digits(position as nat) + " still routes to "@)
                + endpoint@ + " after durable source reconciliation; refusing an unrecorded repair"@,
            ControlFault::NoNodes =>
                "rebalance_and_move: the cluster has no nodes to place shards on"@,
        }
    }

    /// The message for an operator.
    pub fn message(&self) -> (out: String)
        ensures
            out@ == self.text(),
    {
        match self {
            ControlFault::Control(e) => e.message(),
            ControlFault::MemberUnregistered { node } => numbered(
                "durable move: node ",
                node.0,
                " has no registered endpoint",
            ),
            ControlFault::LostPredicate { context, operation_id } => paired(
                context.as_str(),
                numbered(
                    ": durable move ",
                    *operation_id,
                    " lost its conditional predicate",
                ).as_str()
            ),
            ControlFault::Rejected { context, operation_id } => paired(
                context.as_str(),
                numbered(": durable move ", *operation_id, " was rejected as invalid").as_str()
            ),
            ControlFault::LacksIdentity { operation_id, node } => {
                let mut out = numbered(
                    "durable move ",
                    *operation_id,
                    " lacks identity for node ",
                );
                out.append(decimal(node.0).as_str());
                out
            },
            ControlFault::Incompatible { operation_id } => numbered(
                "durable move ",
                *operation_id,
                " has an incompatible version, position, or placement generation",
            ),
            ControlFault::NonCanonicalMembers { operation_id } => numbered(
                "durable move ",
                *operation_id,
                " has an incomplete or non-canonical member identity set",
            ),
            ControlFault::EndpointGone { operation_id, node } => {
                let mut out = numbered("durable move ", *operation_id, " node ");
                out.append(decimal(node.0).as_str());
                out.append(" no longer has an endpoint");
                out
            },
            ControlFault::EndpointChanged { operation_id, node } => {
                let mut out = numbered(
                    "durable move ",
                    *operation_id,
                    " endpoint identity changed for node ",
                );
                out.append(decimal(node.0).as_str());
                out
            },
            ControlFault::ExpectedPredicate { operation_id } => numbered(
                "durable move ",
                *operation_id,
                " expected assignment predicate no longer holds",
            ),
            ControlFault::CommittedPredicate { operation_id } => numbered(
                "durable move ",
                *operation_id,
                " committed assignment predicate no longer holds",
            ),
            ControlFault::NonCanonicalPositions => {
                "durable move state has duplicate or non-canonical positions".to_owned()
            },
            ControlFault::OverlappingIntents => {
                "durable move state has duplicate operation ids or overlapping endpoint reservations".to_owned()
            },
            ControlFault::SourceFence { operation_id, expected, observed } => {
                let mut out = numbered("durable move ", *operation_id, " expected source fence ");
                out.append(decimal(*expected).as_str());
                out.append(", observed ");
                out.append(decimal(*observed).as_str());
                out.append("; refusing ambiguous authority");
                out
            },
            ControlFault::DesiredFenced { operation_id, node, generation } => {
                let mut out = numbered("durable move ", *operation_id, " desired member ");
                out.append(decimal(node.0).as_str());
                out.append(" remains fenced at generation ");
                out.append(decimal(*generation).as_str());
                out
            },
            ControlFault::RetainedFenced { operation_id, generation } => {
                let mut out = numbered(
                    "durable move ",
                    *operation_id,
                    " retained source could not be unfenced; generation ",
                );
                out.append(decimal(*generation).as_str());
                out.append(" remains");
                out
            },
            ControlFault::ExpectedFenced { operation_id, generation } => {
                let mut out = numbered(
                    "durable move ",
                    *operation_id,
                    " expected source remains fenced at generation ",
                );
                out.append(decimal(*generation).as_str());
                out.append("; refusing to discard the intent");
                out
            },
            ControlFault::EvidenceChanged { operation_id } => numbered(
                "durable move ",
                *operation_id,
                " target evidence changed after readiness; refusing ambiguous cutover",
            ),
            ControlFault::IntentsChurning => {
                "durable move intents kept appearing during startup recovery; refusing to serve while control state is churning".to_owned()
            },
            ControlFault::NoAssignment { position } => paired(
                "reassign_and_move: no committed assignment for shard position ",
                decimal(*position).as_str(),
            ),
            ControlFault::NodeUnroutable { node } => numbered(
                "reassign_and_move: node ",
                node.0,
                " has no registered endpoint (addr)",
            ),
            ControlFault::PlanChurning { position } => numbered(
                "reassign_and_move: the committed assignment or live primary for shard position ",
                *position,
                " kept changing while planning (4 attempts); retry once routing stops churning",
            ),
            ControlFault::LiveSourceUnregistered { endpoint } => joined(
                "reassign_and_move: live source ",
                endpoint.as_str(),
                " is not a registered membership endpoint; register its authoritative node before moving onward",
            ),
            ControlFault::LiveSourceAliased { endpoint } => joined(
                "reassign_and_move: live source ",
                endpoint.as_str(),
                " aliases multiple membership nodes; reconcile that logical identity explicitly before moving onward",
            ),
            ControlFault::UnresolvedIntent { position } => numbered(
                "reassign_and_move: shard position ",
                *position,
                " has an unresolved committed move intent; restart the coordinator so startup can attest the recorded cutover before repairing live routing",
            ),
            ControlFault::StillRoutes { position, endpoint } => joined(
                numbered(
                    "reassign_and_move: shard position ",
                    *position,
                    " still routes to ",
                ).as_str(),
                endpoint.as_str(),
                " after durable source reconciliation; refusing an unrecorded repair",
            ),
            ControlFault::NoNodes => {
                "rebalance_and_move: the cluster has no nodes to place shards on".to_owned()
            },
        }
    }
}

impl ConfigFault {
    /// What the message says.
    pub open spec fn text(self) -> Seq<char> {
        match self {
            ConfigFault::PositionTooLarge { position } => "reassign_and_move: shard position "@
                + digits(position as nat) + " exceeds the u32 wire/control limit"@,
            ConfigFault::Replicated { position, replicas } => "reassign_and_move: shard position "@
                + digits(position as nat) + " has "@ + digits(replicas as nat)
                + " committed replica(s); a single-target move would de-replicate it — use reassign_group_and_move (or rebalance_and_move / reconcile, which dispatch group moves) instead (ADR-094)"@,
            ConfigFault::NotHandoffCapable { position } => "reassign_and_move: shard position "@
                + digits(position as nat)
                + " is not handoff-capable (the cluster was not built via connect_remote/connect_replicated)"@,
            ConfigFault::NoLivePrimary { position } => "reassign_and_move: shard position "@
                + digits(position as nat) + " has no live remote primary"@,
            ConfigFault::LostLivePrimary { position } => "reassign_and_move: shard position "@
                + digits(position as nat) + " lost its live remote primary"@,
            ConfigFault::TooManyIds { live, limit } => "live logical-ID count "@ + digits(
                live as nat,
            ) + " exceeds enumeration limit "@ + digits(limit as nat),
            ConfigFault::SnapshotAllocation { detail } =>
                "allocating logical-ID snapshot: "@ + detail@,
            ConfigFault::DirectoryAllocation { detail } =>
                "allocating logical-ID directory: "@ + detail@,
            ConfigFault::CompactAllocation { detail } =>
                "compacting logical-ID directory: "@ + detail@,
            ConfigFault::DirectoryTooLarge { limit } => "logical-ID directory exceeds "@ + digits(
                limit as nat,
            ) + " IDs"@,
        }
    }

    /// The message for an operator.
    pub fn message(&self) -> (out: String)
        ensures
            out@ == self.text(),
    {
        match self {
            ConfigFault::PositionTooLarge { position } => numbered(
                "reassign_and_move: shard position ",
                *position,
                " exceeds the u32 wire/control limit",
            ),
            ConfigFault::Replicated { position, replicas } => {
                let mut out = numbered("reassign_and_move: shard position ", *position, " has ");
                out.append(decimal(*replicas).as_str());
                out.append(
                    " committed replica(s); a single-target move would de-replicate it — use reassign_group_and_move (or rebalance_and_move / reconcile, which dispatch group moves) instead (ADR-094)",
                );
                out
            },
            ConfigFault::NotHandoffCapable { position } => numbered(
                "reassign_and_move: shard position ",
                *position,
                " is not handoff-capable (the cluster was not built via connect_remote/connect_replicated)",
            ),
            ConfigFault::NoLivePrimary { position } => numbered(
                "reassign_and_move: shard position ",
                *position,
                " has no live remote primary",
            ),
            ConfigFault::LostLivePrimary { position } => numbered(
                "reassign_and_move: shard position ",
                *position,
                " lost its live remote primary",
            ),
            ConfigFault::TooManyIds { live, limit } => {
                let mut out = numbered(
                    "live logical-ID count ",
                    *live,
                    " exceeds enumeration limit ",
                );
                out.append(decimal(*limit).as_str());
                out
            },
            ConfigFault::SnapshotAllocation { detail } => {
                paired("allocating logical-ID snapshot: ", detail.as_str())
            },
            ConfigFault::DirectoryAllocation { detail } => {
                paired("allocating logical-ID directory: ", detail.as_str())
            },
            ConfigFault::CompactAllocation { detail } => {
                paired("compacting logical-ID directory: ", detail.as_str())
            },
            ConfigFault::DirectoryTooLarge { limit } => numbered(
                "logical-ID directory exceeds ",
                *limit,
                " IDs",
            ),
        }
    }
}

impl ProtocolFault {
    /// What the message says.
    pub open spec fn text(self) -> Seq<char> {
        match self {
            ProtocolFault::CountChanged => "live logical-ID count changed"@,
            ProtocolFault::MissingRows => "live logical-ID snapshot has missing index rows"@,
            ProtocolFault::DuplicateRows => "live logical-ID snapshot has duplicate index rows"@,
            ProtocolFault::Enumeration { position, copy, detail } =>
                "enumerating logical IDs at position "@ + digits(position as nat) + " copy "@
                + digits(copy as nat) + ": "@ + detail@,
        }
    }

    /// The message for an operator.
    pub fn message(&self) -> (out: String)
        ensures
            out@ == self.text(),
    {
        match self {
            ProtocolFault::CountChanged => "live logical-ID count changed".to_owned(),
            ProtocolFault::MissingRows => {
                "live logical-ID snapshot has missing index rows".to_owned()
            },
            ProtocolFault::DuplicateRows => {
                "live logical-ID snapshot has duplicate index rows".to_owned()
            },
            ProtocolFault::Enumeration { position, copy, detail } => {
                let mut out = numbered(
                    "enumerating logical IDs at position ",
                    *position,
                    " copy ",
                );
                out.append(decimal(*copy).as_str());
                out.append(": ");
                out.append(detail.as_str());
                out
            },
        }
    }
}

impl ShardError {
    /// What the message says.
    pub open spec fn text(self) -> Seq<char> {
        match self {
            ShardError::Config(fault) => fault.text(),
            ShardError::ControlPlane(fault) => fault.text(),
            ShardError::Protocol(fault) => fault.text(),
            ShardError::Remote(detail) => detail@,
            ShardError::DeadlineExceeded => "deadline exceeded"@,
        }
    }

    /// The message for an operator.
    pub fn message(&self) -> (out: String)
        ensures
            out@ == self.text(),
    {
        match self {
            ShardError::Config(fault) => fault.message(),
            ShardError::ControlPlane(fault) => fault.message(),
            ShardError::Protocol(fault) => fault.message(),
            ShardError::Remote(detail) => detail.clone(),
            ShardError::DeadlineExceeded => "deadline exceeded".to_owned(),
        }
    }
}

} // verus!
