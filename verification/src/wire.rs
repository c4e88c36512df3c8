//! The persisted form of the control document.
//!
//! A document that has never seen a move command keeps the plain epoch that every reader
//! understands. Once a move command was observed, the epoch is written together with the move
//! format, so a reader of an older format fails on it instead of dropping transition state.

use vstd::prelude::*;
use vstd::string::StringExecFns;

use crate::document::{
    AssignmentView, ClusterState, ClusterStateView, CommandView, MOVE_CONTROL_FORMAT_CURRENT,
    MOVE_CONTROL_FORMAT_LEGACY, MoveControlState, MovesView, NodeDescriptor, NodeId, NodeView,
    ShardAssignment,
};
use crate::keyed::views;
use crate::move_intent::move_state;
use crate::text::{decimal, digits};

verus! {

/// The two forms of the epoch.
#[derive(Clone, Copy, Debug, PartialEq, Eq, Structural)]
pub enum EpochWire {
    Legacy(u64),
    Current { value: u64, control_format_version: u32 },
}

/// The persisted document, field by field.
#[derive(Debug, PartialEq, Eq)]
pub struct ClusterStateWire {
    pub epoch: EpochWire,
    pub nodes: Vec<NodeDescriptor>,
    pub voters: Vec<NodeId>,
    pub assignments: Vec<ShardAssignment>,
    pub num_shards: u32,
    pub vnodes: u32,
    pub dict_fingerprint: u64,
    pub model_version: u64,
    pub placement_generation: u64,
    pub moves: MoveControlState,
}

/// The view of `ClusterStateWire`.
#[verifier::ext_equal]
pub struct WireView {
    pub epoch: EpochWire,
    pub nodes: Seq<NodeView>,
    pub voters: Seq<NodeId>,
    pub assignments: Seq<AssignmentView>,
    pub num_shards: u32,
    pub vnodes: u32,
    pub dict_fingerprint: u64,
    pub model_version: u64,
    pub placement_generation: u64,
    pub moves: MovesView,
}

impl View for ClusterStateWire {
    type V = WireView;

    open spec fn view(&self) -> WireView {
        WireView {
            epoch: self.epoch,
            nodes: views(self.nodes@),
            voters: self.voters@,
            assignments: views(self.assignments@),
            num_shards: self.num_shards,
            vnodes: self.vnodes,
            dict_fingerprint: self.dict_fingerprint,
            model_version: self.model_version,
            placement_generation: self.placement_generation,
            moves: self.moves@,
        }
    }
}

/// Why a persisted document is refused.
#[derive(Clone, Copy, Debug, PartialEq, Eq, Structural)]
pub enum WireFault {
    /// A plain epoch stands beside move state that a plain epoch cannot carry.
    LegacyEpochWithMoveState,
    /// The move format is not the one that this state machine replays.
    UnsupportedFormat(u32),
}

impl WireFault {
    /// What the message says.
    pub open spec fn text(self) -> Seq<char> {
        match self {
            WireFault::LegacyEpochWithMoveState =>
                "legacy cluster-state epoch carries non-legacy move state"@,
            WireFault::UnsupportedFormat(version) => "unsupported move control format "@ + digits(
                version as nat,
            ),
        }
    }

    /// The message for an operator.
    pub fn message(&self) -> (out: String)
        ensures
            out@ == self.text(),
    {
        match self {
            WireFault::LegacyEpochWithMoveState => {
                "legacy cluster-state epoch carries non-legacy move state".to_owned()
            },
            WireFault::UnsupportedFormat(version) => {
                let mut out = "unsupported move control format ".to_owned();
                out.append(decimal(*version as u64).as_str());
                out
            },
        }
    }
}

/// The form in which a document writes its epoch.
pub open spec fn epoch_form(state: ClusterStateView) -> EpochWire {
    if state.moves.format_version >= MOVE_CONTROL_FORMAT_CURRENT {
        EpochWire::Current {
            value: state.epoch,
            control_format_version: state.moves.format_version,
        }
    } else {
        EpochWire::Legacy(state.epoch)
    }
}

/// The persisted form of a document.
pub open spec fn wire_of(state: ClusterStateView) -> WireView {
    WireView {
        epoch: epoch_form(state),
        nodes: state.nodes,
        voters: state.voters,
        assignments: state.assignments,
        num_shards: state.num_shards,
        vnodes: state.vnodes,
        dict_fingerprint: state.dict_fingerprint,
        model_version: state.model_version,
        placement_generation: state.placement_generation,
        moves: state.moves,
    }
}

/// What is wrong with a persisted document, if anything.
pub open spec fn wire_fault(wire: WireView) -> Option<WireFault> {
    match wire.epoch {
        EpochWire::Legacy(_) => if wire.moves.format_version == MOVE_CONTROL_FORMAT_LEGACY {
            None
        } else {
            Some(WireFault::LegacyEpochWithMoveState)
        },
        EpochWire::Current { control_format_version, .. } => if control_format_version
            == MOVE_CONTROL_FORMAT_CURRENT && wire.moves.format_version
            == MOVE_CONTROL_FORMAT_CURRENT {
            None
        } else {
            Some(WireFault::UnsupportedFormat(control_format_version))
        },
    }
}

/// The document that a persisted form holds.
pub open spec fn document_of(wire: WireView) -> ClusterStateView {
    ClusterStateView {
        epoch: match wire.epoch {
            EpochWire::Legacy(value) => value,
            EpochWire::Current { value, .. } => value,
        },
        nodes: wire.nodes,
        voters: wire.voters,
        assignments: wire.assignments,
        num_shards: wire.num_shards,
        vnodes: wire.vnodes,
        dict_fingerprint: wire.dict_fingerprint,
        model_version: wire.model_version,
        placement_generation: wire.placement_generation,
        moves: wire.moves,
    }
}

impl ClusterState {
    /// The persisted form of the document.
    pub fn to_wire(&self) -> (wire: ClusterStateWire)
        ensures
            wire@ == wire_of(self@),
    {
        let state = self.clone();
        let epoch = if state.moves.format_version >= MOVE_CONTROL_FORMAT_CURRENT {
            EpochWire::Current {
                value: state.epoch,
                control_format_version: state.moves.format_version,
            }
        } else {
            EpochWire::Legacy(state.epoch)
        };
        ClusterStateWire {
            epoch,
            nodes: state.nodes,
            voters: state.voters,
            assignments: state.assignments,
            num_shards: state.num_shards,
            vnodes: state.vnodes,
            dict_fingerprint: state.dict_fingerprint,
            model_version: state.model_version,
            placement_generation: state.placement_generation,
            moves: state.moves,
        }
    }
}

impl ClusterStateWire {
    /// The document, unless the persisted form is of a format that cannot be replayed.
    pub fn into_state(self) -> (r: Result<ClusterState, WireFault>)
        ensures
            match r {
                Ok(state) => wire_fault(self@) is None && state@ == document_of(self@),
                Err(fault) => wire_fault(self@) == Some(fault),
            },
    {
        let epoch: u64 = match self.epoch {
            EpochWire::Legacy(value) => {
                if self.moves.format_version != MOVE_CONTROL_FORMAT_LEGACY {
                    return Err(WireFault::LegacyEpochWithMoveState);
                }
                value
            },
            EpochWire::Current { value, control_format_version } => {
                if control_format_version != MOVE_CONTROL_FORMAT_CURRENT
                    || self.moves.format_version != MOVE_CONTROL_FORMAT_CURRENT {
                    return Err(WireFault::UnsupportedFormat(control_format_version));
                }
                value
            },
        };
        Ok(
            ClusterState {
                epoch,
                nodes: self.nodes,
                voters: self.voters,
                assignments: self.assignments,
                num_shards: self.num_shards,
                vnodes: self.vnodes,
                dict_fingerprint: self.dict_fingerprint,
                model_version: self.model_version,
                placement_generation: self.placement_generation,
                moves: self.moves,
            },
        )
    }
}

/// A document of the legacy or of the current format is read back as it was written.
pub proof fn lemma_wire_round_trip(state: ClusterStateView)
    requires
        state.moves.format_version == MOVE_CONTROL_FORMAT_LEGACY || state.moves.format_version
            == MOVE_CONTROL_FORMAT_CURRENT,
    ensures
        wire_fault(wire_of(state)) is None,
        document_of(wire_of(state)) == state,
{
}

/// A document of any other format is never read back.
pub proof fn lemma_other_formats_refused(state: ClusterStateView)
    requires
        state.moves.format_version != MOVE_CONTROL_FORMAT_LEGACY,
        state.moves.format_version != MOVE_CONTROL_FORMAT_CURRENT,
    ensures
        wire_fault(wire_of(state)) is Some,
{
}

/// Once a document has seen a move command, however it ended, a reader that knows only the
/// plain epoch cannot read it, and a current reader reads it back.
pub proof fn lemma_moved_document_fails_loud(state: ClusterStateView, command: CommandView)
    ensures
        epoch_form(move_state(state, command)) is Current,
        wire_fault(wire_of(move_state(state, command))) is None,
        document_of(wire_of(move_state(state, command))) == move_state(state, command),
{
}

/// What a persisted document is refused for, by its numbers: beside a plain epoch stands only move
/// format 1; beside the other one, and in it, stands only format 4.
pub proof fn lemma_wire_decides(wire: WireView)
    ensures
        ({
            let format = wire.moves.format_version;
            match wire.epoch {
                EpochWire::Legacy(value) => {
                    &&& format == 1 ==> wire_fault(wire) is None
                    &&& format != 1 ==> wire_fault(wire) == Some(
                        WireFault::LegacyEpochWithMoveState,
                    )
                    &&& document_of(wire).epoch == value
                },
                EpochWire::Current { value, control_format_version: version } => {
                    &&& version == 4 && format == 4 ==> wire_fault(wire) is None
                    &&& version != 4 || format != 4 ==> wire_fault(wire) == Some(
                        WireFault::UnsupportedFormat(version),
                    )
                    &&& document_of(wire).epoch == value
                },
            }
        }),
        document_of(wire).nodes == wire.nodes,
        document_of(wire).voters == wire.voters,
        document_of(wire).assignments == wire.assignments,
        document_of(wire).num_shards == wire.num_shards,
        document_of(wire).vnodes == wire.vnodes,
        document_of(wire).dict_fingerprint == wire.dict_fingerprint,
        document_of(wire).model_version == wire.model_version,
        document_of(wire).placement_generation == wire.placement_generation,
        document_of(wire).moves == wire.moves,
{
}

/// What is persisted of a document: every field as it is, and the epoch in the plain form below
/// move format 4, and together with the format from it on.
pub proof fn lemma_wire_fields(state: ClusterStateView)
    ensures
        wire_of(state).epoch == if state.moves.format_version < 4 {
            EpochWire::Legacy(state.epoch)
        } else {
            EpochWire::Current {
                value: state.epoch,
                control_format_version: state.moves.format_version,
            }
        },
        wire_of(state).nodes == state.nodes,
        wire_of(state).voters == state.voters,
        wire_of(state).assignments == state.assignments,
        wire_of(state).num_shards == state.num_shards,
        wire_of(state).vnodes == state.vnodes,
        wire_of(state).dict_fingerprint == state.dict_fingerprint,
        wire_of(state).model_version == state.model_version,
        wire_of(state).placement_generation == state.placement_generation,
        wire_of(state).moves == state.moves,
{
}

} // verus!
