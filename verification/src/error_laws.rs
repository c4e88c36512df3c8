//! What error messages tell: the numbers, names and reasons that an operator acts on.

use vstd::prelude::*;

use crate::error::{ConfigFault, ControlError, ControlFault, ProtocolFault, ShardError};
use crate::text::digits;
use crate::wire::WireFault;

verus! {

/// The words stand in the text.
pub open spec fn tells(text: Seq<char>, words: Seq<char>) -> bool {
    exists|i: int|
        0 <= i && i + words.len() <= text.len() && #[trigger] text.subrange(
            i,
            i + words.len(),
        ) == words
}

/// The number stands in the text, in decimal.
pub open spec fn tells_number(text: Seq<char>, n: u64) -> bool {
    tells(text, digits(n as nat))
}

/// A text tells itself, and a longer text tells what its parts tell.
proof fn lemma_tells()
    ensures
        forall|words: Seq<char>| #[trigger] tells(words, words),
        forall|x: Seq<char>, y: Seq<char>, words: Seq<char>|
            tells(x, words) || tells(y, words) ==> #[trigger] tells(x + y, words),
{
    assert forall|words: Seq<char>| #[trigger] tells(words, words) by {
        let n = words.len() as int;
        assert(words.subrange(0, 0 + n) =~= words);
    }
    assert forall|x: Seq<char>, y: Seq<char>, words: Seq<char>|
        tells(x, words) || tells(y, words) implies #[trigger] tells(x + y, words) by {
        if tells(x, words) {
            let i = choose|i: int|
                0 <= i && i + words.len() <= x.len() && #[trigger] x.subrange(
                    i,
                    i + words.len(),
                ) == words;
            assert((x + y).subrange(i, i + words.len()) =~= x.subrange(i, i + words.len()));
        } else {
            let i = choose|i: int|
                0 <= i && i + words.len() <= y.len() && #[trigger] y.subrange(
                    i,
                    i + words.len(),
                ) == words;
            let at = x.len() + i;
            assert((x + y).subrange(at, at + words.len()) =~= y.subrange(i, i + words.len()));
        }
    }
}

/// What goes wrong in the control plane is told with its numbers, its names and its context.
pub proof fn lemma_control_fault_tells(fault: ControlFault)
    ensures
        match fault {
            ControlFault::MemberUnregistered { node } => tells_number(fault.text(), node.0),
            ControlFault::LostPredicate { context, operation_id } => {
                &&& tells(fault.text(), context@)
                &&& tells_number(fault.text(), operation_id)
            },
            ControlFault::Rejected { context, operation_id } => {
                &&& tells(fault.text(), context@)
                &&& tells_number(fault.text(), operation_id)
            },
            ControlFault::LacksIdentity { operation_id, node } => {
                &&& tells_number(fault.text(), operation_id)
                &&& tells_number(fault.text(), node.0)
            },
            ControlFault::Incompatible { operation_id } => tells_number(
                fault.text(),
                operation_id,
            ),
            ControlFault::NonCanonicalMembers { operation_id } => tells_number(
                fault.text(),
                operation_id,
            ),
            ControlFault::EndpointGone { operation_id, node } => {
                &&& tells_number(fault.text(), operation_id)
                &&& tells_number(fault.text(), node.0)
            },
            ControlFault::EndpointChanged { operation_id, node } => {
                &&& tells_number(fault.text(), operation_id)
                &&& tells_number(fault.text(), node.0)
            },
            ControlFault::ExpectedPredicate { operation_id } => tells_number(
                fault.text(),
                operation_id,
            ),
            ControlFault::CommittedPredicate { operation_id } => tells_number(
                fault.text(),
                operation_id,
            ),
            ControlFault::SourceFence { operation_id, expected, observed } => {
                &&& tells_number(fault.text(), operation_id)
                &&& tells_number(fault.text(), expected)
                &&& tells_number(fault.text(), observed)
            },
            ControlFault::DesiredFenced { operation_id, node, generation } => {
                &&& tells_number(fault.text(), operation_id)
                &&& tells_number(fault.text(), node.0)
                &&& tells_number(fault.text(), generation)
            },
            ControlFault::RetainedFenced { operation_id, generation } => {
                &&& tells_number(fault.text(), operation_id)
                &&& tells_number(fault.text(), generation)
            },
            ControlFault::ExpectedFenced { operation_id, generation } => {
                &&& tells_number(fault.text(), operation_id)
                &&& tells_number(fault.text(), generation)
            },
            ControlFault::EvidenceChanged { operation_id } => tells_number(
                fault.text(),
                operation_id,
            ),
            ControlFault::NoAssignment { position } => tells_number(fault.text(), position),
            ControlFault::NodeUnroutable { node } => tells_number(fault.text(), node.0),
            ControlFault::PlanChurning { position } => tells_number(fault.text(), position),
            ControlFault::LiveSourceUnregistered { endpoint } => tells(fault.text(), endpoint@),
            ControlFault::LiveSourceAliased { endpoint } => tells(fault.text(), endpoint@),
            ControlFault::UnresolvedIntent { position } => tells_number(fault.text(), position),
            ControlFault::StillRoutes { position, endpoint } => {
                &&& tells_number(fault.text(), position)
                &&& tells(fault.text(), endpoint@)
            },
            _ => true,
        },
{
    lemma_tells();
}

/// What a request or a limit makes impossible is told with its numbers, and with the words of the
/// allocator where it refused.
pub proof fn lemma_config_fault_tells(fault: ConfigFault)
    ensures
        match fault {
            ConfigFault::PositionTooLarge { position } => tells_number(fault.text(), position),
            ConfigFault::Replicated { position, replicas } => {
                &&& tells_number(fault.text(), position)
                &&& tells_number(fault.text(), replicas)
            },
            ConfigFault::NotHandoffCapable { position } => tells_number(fault.text(), position),
            ConfigFault::NoLivePrimary { position } => tells_number(fault.text(), position),
            ConfigFault::LostLivePrimary { position } => tells_number(fault.text(), position),
            ConfigFault::TooManyIds { live, limit } => {
                &&& tells_number(fault.text(), live)
                &&& tells_number(fault.text(), limit)
            },
            ConfigFault::SnapshotAllocation { detail } => tells(fault.text(), detail@),
            ConfigFault::DirectoryAllocation { detail } => tells(fault.text(), detail@),
            ConfigFault::CompactAllocation { detail } => tells(fault.text(), detail@),
            ConfigFault::DirectoryTooLarge { limit } => tells_number(fault.text(), limit),
            _ => true,
        },
{
    lemma_tells();
}

/// A copy that could not be enumerated is told by its position and its number, and with its reason.
pub proof fn lemma_protocol_fault_tells(fault: ProtocolFault)
    ensures
        match fault {
            ProtocolFault::Enumeration { position, copy, detail } => {
                &&& tells_number(fault.text(), position)
                &&& tells_number(fault.text(), copy)
                &&& tells(fault.text(), detail@)
            },
            _ => true,
        },
{
    lemma_tells();
}

/// A failure of the control plane is told with the leader to go to, or with the words of the
/// backend; and a persisted document of another format with that format.
pub proof fn lemma_control_error_tells(error: ControlError, fault: WireFault)
    ensures
        match error {
            ControlError::ForwardToLeader { leader, addr } => {
                &&& leader matches Some(node) ==> tells_number(error.text(), node.0)
                &&& addr matches Some(a) ==> tells(error.text(), crate::text::debug_text(a@))
            },
            ControlError::Backend(detail) => tells(error.text(), detail@),
            _ => true,
        },
        ControlFault::Control(error).text() == error.text(),
        fault matches WireFault::UnsupportedFormat(version) ==> tells(
            fault.text(),
            digits(version as nat),
        ),
{
    lemma_tells();
}

/// A shard error says what its cause says.
pub proof fn lemma_shard_error_tells(error: ShardError)
    ensures
        match error {
            ShardError::Config(fault) => error.text() == fault.text(),
            ShardError::ControlPlane(fault) => error.text() == fault.text(),
            ShardError::Protocol(fault) => error.text() == fault.text(),
            ShardError::Remote(detail) => error.text() == detail@,
            ShardError::DeadlineExceeded => true,
        },
{
}

} // verus!
