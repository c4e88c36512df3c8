//! What the logical-id protocol decides, read off requests, frames and rows: who is admitted, how
//! large frames are, which frames are taken, and what a shard's rows come to.

use vstd::prelude::*;

use crate::cancel::{CancelCheck, lemma_polls_read, stopped};
use crate::error::{ProtocolFault, ShardError};
use crate::logical_id_directory::{
    DirectoryView, copy_step, is_union, no_copies, union_too_large,
};
use crate::logical_id_scan::{
    LEAF, POLL_EVERY, bucket_polls, checked_ids, first_equal, first_equal_at, in_order, increasing,
    no_equal_neighbours, ordered, same_elements, sort_polls, step_polls, tells_of_no_room,
    unique_polls, with_byte,
};
use crate::logical_id_stream::{
    AdmissionFault, ServedPosition, StreamView, admission_fault, capacity, ended, frame_at,
    frames_of, least,
};
use crate::logical_id_wire::{
    CollectorView, FrameView, IdFault, LOGICAL_IDS_PER_FRAME, LiveLogicalIdsRequest,
    MAX_ENUMERATION_MICROS, MAX_LIVE_LOGICAL_IDS, collected, counted, frame_fault, fresh_collector,
    stream_fault, stream_result, taken, takes_data,
};

verus! {

/// The limits of the protocol and of the scan: a hundred million ids to a snapshot, 4096 to a
/// frame, one minute to an enumeration, 4096 ids to a leaf, 256 steps to a poll.
pub proof fn lemma_limits()
    ensures
        MAX_LIVE_LOGICAL_IDS == 100_000_000,
        LOGICAL_IDS_PER_FRAME == 4096,
        MAX_ENUMERATION_MICROS == 60 * 1_000_000,
        LEAF == 4096,
        POLL_EVERY == 256,
{
}

// ---- Admission -----------------------------------------------------------------------------

/// A request is admitted exactly where it has time left, asks for at least one and at most a
/// hundred million ids, knows the placement and the dictionaries of a loaded slot, and finds no
/// other enumeration in progress. Otherwise the first of these that fails, in this order, is what
/// it is refused for.
pub proof fn lemma_admission_decides(request: LiveLogicalIdsRequest, served: ServedPosition)
    ensures
        ({
            let fault = admission_fault(request, served);
            let timely = request.remaining_micros > 0;
            let sized = 0 < request.max_ids <= 100_000_000;
            let placed = request.placement_generation == served.placement_generation
                && request.num_shards == served.num_shards;
            let loaded = served.slot is Some;
            let alike = served.slot matches Some(slot) && slot.dict_fingerprint
                == request.dict_fingerprint && slot.tag_dict_fingerprint
                == request.tag_dict_fingerprint;
            &&& fault is None <==> timely && sized && placed && loaded && alike && served.permit
            &&& fault == Some(AdmissionFault::DeadlineExhausted) <==> !timely
            &&& fault == Some(AdmissionFault::InvalidLimit) <==> timely && !sized
            &&& fault == Some(AdmissionFault::PlacementMismatch) <==> timely && sized && !placed
            &&& fault == Some(AdmissionFault::SlotNotLoaded) <==> timely && sized && placed
                && !loaded
            &&& fault == Some(AdmissionFault::FingerprintMismatch) <==> timely && sized && placed
                && loaded && !alike
            &&& fault == Some(AdmissionFault::Busy) <==> timely && sized && placed && alike
                && !served.permit
        }),
{
    lemma_limits();
}

// ---- Frames --------------------------------------------------------------------------------

/// A frame carries as many ids as fit: with more than one, 64 bytes and eight for each id are
/// within the cap; and where it carries fewer than 4096, one more would not be.
pub proof fn lemma_capacity(max_bytes: nat)
    ensures
        1 <= capacity(max_bytes) <= 4096,
        capacity(max_bytes) > 1 ==> 64 + 8 * capacity(max_bytes) <= max_bytes,
        capacity(max_bytes) < 4096 ==> 64 + 8 * (capacity(max_bytes) + 1) > max_bytes,
{
    lemma_limits();
}

/// Every frame of a snapshot carries the identity that was asked for and the count of the whole,
/// and at most so many ids; the last one, and no other, says that the snapshot is complete.
pub proof fn lemma_frames(
    request: LiveLogicalIdsRequest,
    ids: Seq<u64>,
    per_frame: int,
    k: int,
)
    requires
        ids.len() <= u64::MAX,
        0 < per_frame,
        0 <= k < frames_of(request, ids, per_frame).len(),
    ensures
        ({
            let frames = frames_of(request, ids, per_frame);
            let from = k * per_frame;
            &&& frames[k].shard_id == request.shard_id
            &&& frames[k].placement_generation == request.placement_generation
            &&& frames[k].num_shards == request.num_shards
            &&& frames[k].total_ids == ids.len()
            &&& frames[k].logical_ids.len() <= per_frame
            &&& frames[k].complete <==> from >= ids.len()
            &&& forall|i: int|
                0 <= i < frames[k].logical_ids.len() ==> #[trigger] frames[k].logical_ids[i]
                    == ids[from + i]
            &&& from + per_frame <= ids.len() ==> frames[k].logical_ids.len() == per_frame
            &&& from <= ids.len() < from + per_frame ==> frames[k].logical_ids.len() == ids.len()
                - from
        }),
{
    assert(k * per_frame >= 0) by (nonlinear_arith)
        requires
            k >= 0,
            per_frame > 0,
    ;
    let from = least(k * per_frame, ids.len() as int);
    assert(frames_of(request, ids, per_frame)[k] == frame_at(request, ids, from, per_frame));
    assert(ids.len() as u64 == ids.len());
}

/// A stream that has ended holds no snapshot any more, and says nothing more; what it was asked
/// for stays.
pub proof fn lemma_ended(stream: StreamView)
    ensures
        ended(stream).ids.len() == 0,
        ended(stream).offset == 0,
        ended(stream).released,
        ended(stream).finished,
        ended(stream).request == stream.request,
        ended(stream).per_frame == stream.per_frame,
        ended(stream).max_bytes == stream.max_bytes,
{
}

// ---- The collector -------------------------------------------------------------------------

/// A frame is of the snapshot that a collector collects.
pub open spec fn same_snapshot(c: CollectorView, frame: FrameView) -> bool {
    &&& frame.shard_id == c.shard_id
    &&& frame.placement_generation == c.generation
    &&& frame.num_shards == c.num_shards
}

/// The ids of a frame go on where the collected ones end: there are some, they strictly increase,
/// they start behind the last one, and with them there are no more than announced.
pub open spec fn goes_on(c: CollectorView, frame: FrameView) -> bool {
    let data = frame.logical_ids;
    &&& data.len() > 0
    &&& c.ids.len() + data.len() <= frame.total_ids
    &&& forall|i: int| 0 <= i && i + 1 < data.len() ==> #[trigger] data[i] < data[i + 1]
    &&& c.ids.len() > 0 ==> c.ids[c.ids.len() - 1] < data[0]
}

/// Neighbours increase exactly where every two do.
pub proof fn lemma_neighbours_increase(s: Seq<u64>)
    ensures
        increasing(s) <==> forall|i: int| 0 <= i && i + 1 < s.len() ==> #[trigger] s[i] < s[i + 1],
{
    if forall|i: int| 0 <= i && i + 1 < s.len() ==> #[trigger] s[i] < s[i + 1] {
        assert forall|i: int, j: int| 0 <= i < j < s.len() implies s[i] < s[j] by {
            lemma_neighbours_reach(s, i, j);
        }
    }
}

proof fn lemma_neighbours_reach(s: Seq<u64>, i: int, j: int)
    requires
        forall|k: int| 0 <= k && k + 1 < s.len() ==> #[trigger] s[k] < s[k + 1],
        0 <= i < j < s.len(),
    ensures
        s[i] < s[j],
    decreases j,
{
    if i < j - 1 {
        lemma_neighbours_reach(s, i, j - 1);
    }
    assert(s[j - 1] < s[j]);
}

/// A frame is taken exactly where the snapshot is not complete yet, the frame is of it, announces
/// a count that is allowed and that no frame before it contradicts, carries at most 4096 ids, and
/// either goes on with the ids, or is empty and complete once all of them are there. Otherwise the
/// first of these that fails is named.
pub proof fn lemma_frame_decides(c: CollectorView, frame: FrameView)
    requires
        c.max_ids <= usize::MAX,
    ensures
        ({
            let fault = frame_fault(c, frame);
            let total = frame.total_ids;
            let open = !c.complete;
            let ours = same_snapshot(c, frame);
            let counts = total <= usize::MAX;
            let fits = total <= c.max_ids && frame.logical_ids.len() <= 4096;
            let agrees = c.total is None || c.total == Some(total as nat);
            let whole = frame.logical_ids.len() == 0 && c.ids.len() == total;
            &&& fault is None <==> open && ours && fits && agrees && if frame.complete {
                whole
            } else {
                goes_on(c, frame)
            }
            &&& fault == Some(IdFault::AfterCompletion) <==> !open
            &&& fault == Some(IdFault::IdentityMismatch) <==> open && !ours
            &&& fault == Some(IdFault::CountOutOfRange) <==> open && ours && !counts
            &&& fault == Some(IdFault::ExceedsLimits) <==> open && ours && counts && !fits
            &&& fault == Some(IdFault::CountChanged) <==> open && ours && fits && !agrees
            &&& fault == Some(IdFault::CompletionMismatch) <==> open && ours && fits && agrees
                && frame.complete && !whole
            &&& fault == Some(IdFault::MalformedData) <==> open && ours && fits && agrees
                && !frame.complete && !goes_on(c, frame)
        }),
{
    lemma_limits();
    lemma_neighbours_increase(frame.logical_ids);
}

/// What a frame that is taken changes: its ids come behind the collected ones, its count is noted,
/// and it completes the snapshot where it says so. A frame that is refused for what it carries
/// leaves nothing but its count.
pub proof fn lemma_taken(c: CollectorView, frame: FrameView)
    ensures
        ({
            let after = taken(c, frame);
            &&& after.ids.len() == c.ids.len() + frame.logical_ids.len()
            &&& forall|i: int| 0 <= i < c.ids.len() ==> #[trigger] after.ids[i] == c.ids[i]
            &&& forall|i: int|
                0 <= i < frame.logical_ids.len() ==> after.ids[c.ids.len() + i]
                    == #[trigger] frame.logical_ids[i]
            &&& after.total == Some(frame.total_ids as nat)
            &&& after.complete == frame.complete
            &&& after.shard_id == c.shard_id
            &&& after.generation == c.generation
            &&& after.num_shards == c.num_shards
            &&& after.max_ids == c.max_ids
        }),
        counted(c, frame).ids == c.ids,
        counted(c, frame).complete == c.complete,
        counted(c, frame).total == Some(frame.total_ids as nat),
        counted(c, frame).shard_id == c.shard_id,
        counted(c, frame).generation == c.generation,
        counted(c, frame).num_shards == c.num_shards,
        counted(c, frame).max_ids == c.max_ids,
{
}

/// A collector starts with what was asked for: the identity, and as many ids, but no more than a
/// hundred million.
pub proof fn lemma_fresh_collector(request: LiveLogicalIdsRequest)
    ensures
        ({
            let c = fresh_collector(request);
            &&& c.shard_id == request.shard_id
            &&& c.generation == request.placement_generation
            &&& c.num_shards == request.num_shards
            &&& c.max_ids <= request.max_ids
            &&& c.max_ids <= 100_000_000
            &&& c.max_ids == request.max_ids || c.max_ids == 100_000_000
            &&& c.total is None
            &&& !c.complete
            &&& c.ids.len() == 0
        }),
{
    lemma_limits();
}

/// The ids of the first `k` frames, one after the other.
pub open spec fn ids_of(frames: Seq<FrameView>, k: nat) -> Seq<u64>
    decreases k,
{
    if k == 0 {
        Seq::empty()
    } else {
        ids_of(frames, (k - 1) as nat) + frames[k - 1].logical_ids
    }
}

proof fn lemma_collected_ids(c: CollectorView, frames: Seq<FrameView>, k: nat)
    requires
        k <= frames.len(),
        c.max_ids <= usize::MAX,
        collected(c, frames, k) is Some,
    ensures
        ({
            let after = collected(c, frames, k)->0;
            &&& after.ids == c.ids + ids_of(frames, k)
            &&& after.shard_id == c.shard_id
            &&& after.generation == c.generation
            &&& after.num_shards == c.num_shards
            &&& after.max_ids == c.max_ids
            &&& forall|j: int| 0 <= j < k ==> same_snapshot(c, #[trigger] frames[j])
        }),
    decreases k,
{
    if k == 0 {
        assert(c.ids + Seq::<u64>::empty() =~= c.ids);
    } else {
        let j = (k - 1) as nat;
        lemma_collected_ids(c, frames, j);
        let before = collected(c, frames, j)->0;
        lemma_frame_decides(before, frames[j as int]);
        lemma_taken(before, frames[j as int]);
        assert(c.ids + ids_of(frames, j) + frames[j as int].logical_ids =~= c.ids + ids_of(
            frames,
            k,
        ));
    }
}

/// The set that comes out of a stream is what its frames carried, one after the other, and every
/// frame was of the snapshot that was asked for.
pub proof fn lemma_stream_is_its_frames(request: LiveLogicalIdsRequest, frames: Seq<FrameView>)
    requires
        stream_result(request, frames) is Some,
    ensures
        stream_result(request, frames)->0 == ids_of(frames, frames.len()),
        forall|k: int|
            0 <= k < frames.len() ==> {
                &&& (#[trigger] frames[k]).shard_id == request.shard_id
                &&& frames[k].placement_generation == request.placement_generation
                &&& frames[k].num_shards == request.num_shards
            },
{
    let c = fresh_collector(request);
    lemma_fresh_collector(request);
    lemma_collected_ids(c, frames, frames.len());
    assert(Seq::<u64>::empty() + ids_of(frames, frames.len()) =~= ids_of(frames, frames.len()));
    assert(c.ids =~= Seq::<u64>::empty());
    assert forall|k: int| 0 <= k < frames.len() implies {
        &&& (#[trigger] frames[k]).shard_id == request.shard_id
        &&& frames[k].placement_generation == request.placement_generation
        &&& frames[k].num_shards == request.num_shards
    } by {
        assert(same_snapshot(c, frames[k]));
    }
}

/// Frames are collected one after the other: each that has no fault is taken, the first that has
/// one ends it; and a set comes out exactly of frames that are all taken and complete it.
pub proof fn lemma_collected_steps(
    request: LiveLogicalIdsRequest,
    c: CollectorView,
    frames: Seq<FrameView>,
    k: nat,
    ids: Seq<u64>,
)
    ensures
        collected(c, frames, 0) == Some(c),
        k < frames.len() ==> match collected(c, frames, k) {
            None => collected(c, frames, k + 1) is None,
            Some(before) => match frame_fault(before, frames[k as int]) {
                None => collected(c, frames, k + 1) == Some(taken(before, frames[k as int])),
                Some(_) => collected(c, frames, k + 1) is None,
            },
        },
        stream_result(request, frames) == Some(ids) <==> (collected(
            fresh_collector(request),
            frames,
            frames.len(),
        ) matches Some(done) && done.complete && done.ids == ids),
{
}

/// Room is asked for only where a frame brings ids that are taken: every frame before it was taken,
/// and it is neither empty nor the last.
pub proof fn lemma_takes_data(request: LiveLogicalIdsRequest, frames: Seq<FrameView>, k: nat)
    requires
        takes_data(request, frames, k),
    ensures
        k < frames.len(),
        frames[k as int].logical_ids.len() > 0,
        !frames[k as int].complete,
        collected(fresh_collector(request), frames, k) is Some,
        collected(fresh_collector(request), frames, k + 1) is Some,
{
    lemma_fresh_collector(request);
    lemma_collected_ids(fresh_collector(request), frames, k);
    let before = collected(fresh_collector(request), frames, k)->0;
    lemma_frame_decides(before, frames[k as int]);
}

/// A stream is refused for the fault of its first frame that has one, or else for ending without
/// completion.
pub proof fn lemma_first_fault(c: CollectorView, frames: Seq<FrameView>, k: nat)
    requires
        k <= frames.len(),
        collected(c, frames, k) is Some,
    ensures
        ({
            let before = collected(c, frames, k)->0;
            &&& k < frames.len() && frame_fault(before, frames[k as int]) is Some ==> stream_fault(
                c,
                frames,
                0,
            ) == frame_fault(before, frames[k as int])
            &&& k == frames.len() ==> stream_fault(c, frames, 0) == if before.complete {
                None::<IdFault>
            } else {
                Some(IdFault::Unfinished)
            }
        }),
{
    lemma_fault_ahead(c, frames, k);
}

proof fn lemma_fault_ahead(c: CollectorView, frames: Seq<FrameView>, k: nat)
    requires
        k <= frames.len(),
        collected(c, frames, k) is Some,
    ensures
        stream_fault(c, frames, 0) == stream_fault(collected(c, frames, k)->0, frames, k),
    decreases k,
{
    if k > 0 {
        lemma_fault_ahead(c, frames, (k - 1) as nat);
    }
}

// ---- The directory -------------------------------------------------------------------------

/// What one copy makes of a directory. After a failure nothing changes. A copy that failed makes
/// the directory fail, with the copy and its error named, and leaves no ids. One that answered
/// adds its ids and keeps the others, each once and in increasing order; it fails only where both
/// together are over a hundred million, or where there is no room for it.
pub proof fn lemma_copy_decides(
    before: DirectoryView,
    answer: Result<Seq<u64>, ShardError>,
    position: usize,
    copy: usize,
    after: DirectoryView,
)
    requires
        copy_step(before, answer, position, copy, after),
    ensures
        before.failure is Some ==> after == before,
        before.failure is None && after.failure is Some ==> after.ids.len() == 0
            && names_copy(after.failure->0, position, copy),
        before.failure is None && answer is Err ==> after.failure is Some && detail_of(
            after.failure->0,
        ) == (answer->Err_0).text(),
        before.failure is None && answer is Ok && after.failure is None ==> {
            &&& forall|i: int, j: int|
                0 <= i < j < after.ids.len() ==> after.ids[i] < after.ids[j]
            &&& forall|x: u64| #[trigger]
                after.ids.contains(x) <==> before.ids.contains(x) || (answer->Ok_0).contains(x)
            &&& after.ids.len() <= 100_000_000
        },
        before.failure is None && answer is Ok && after.failure is Some ==> {
            ||| over_the_limit(before.ids, answer->Ok_0) && detail_of(after.failure->0)
                == "logical-ID directory exceeds "@ + crate::text::digits(100_000_000) + " IDs"@
            ||| (answer->Ok_0).len() > 0 && exists|detail: String| #[trigger]
                tells_of_no_room(detail) && detail_of(after.failure->0)
                    == "allocating logical-ID directory: "@ + detail@
        },
{
    lemma_limits();
    if before.failure is None && answer is Ok && after.failure is Some {
        lemma_over_the_limit(before.ids, answer->Ok_0);
    }
}

/// A directory starts without ids and without a failure; and the ids of a copy can always be added
/// where there are no more than a hundred million of both.
pub proof fn lemma_copy_fits(
    before: DirectoryView,
    ids: Seq<u64>,
    position: usize,
    copy: usize,
    all: Seq<u64>,
)
    requires
        before.failure is None,
        all.len() <= 100_000_000,
        forall|i: int, j: int| 0 <= i < j < all.len() ==> all[i] < all[j],
        forall|x: u64| #[trigger] all.contains(x) <==> before.ids.contains(x) || ids.contains(x),
    ensures
        copy_step(before, Ok(ids), position, copy, DirectoryView { ids: all, failure: None }),
        no_copies().ids.len() == 0,
        no_copies().failure is None,
{
    lemma_limits();
}

/// A failure is of this copy.
pub open spec fn names_copy(e: ShardError, position: usize, copy: usize) -> bool {
    e matches ShardError::Protocol(ProtocolFault::Enumeration { position: p, copy: c, .. }) && p
        == position && c == copy
}

/// What a failure of a copy says of it.
pub open spec fn detail_of(e: ShardError) -> Seq<char> {
    match e {
        ShardError::Protocol(ProtocolFault::Enumeration { detail, .. }) => detail@,
        _ => Seq::empty(),
    }
}

/// Together there are more than a hundred million different ids.
pub open spec fn over_the_limit(a: Seq<u64>, b: Seq<u64>) -> bool {
    exists|all: Seq<u64>|
        {
            &&& all.len() > 100_000_000
            &&& forall|i: int, j: int| 0 <= i < j < all.len() ==> all[i] < all[j]
            &&& forall|x: u64| #[trigger] all.contains(x) <==> a.contains(x) || b.contains(x)
        }
}

proof fn lemma_over_the_limit(a: Seq<u64>, b: Seq<u64>)
    ensures
        union_too_large(a, b) ==> over_the_limit(a, b),
{
    lemma_limits();
    if union_too_large(a, b) {
        let u = choose|u: Seq<u64>| #[trigger] is_union(u, a, b) && u.len() > MAX_LIVE_LOGICAL_IDS;
        assert(u.len() > 100_000_000);
        assert(forall|x: u64| #[trigger] u.contains(x) <==> a.contains(x) || b.contains(x));
    }
}

// ---- The scan ------------------------------------------------------------------------------

/// Ids are in order exactly where no neighbours are out of order.
pub proof fn lemma_neighbours_ordered(s: Seq<u64>)
    ensures
        ordered(s, 0, s.len() as int) <==> forall|i: int|
            0 <= i && i + 1 < s.len() ==> #[trigger] s[i] <= s[i + 1],
{
    if forall|i: int| 0 <= i && i + 1 < s.len() ==> #[trigger] s[i] <= s[i + 1] {
        assert forall|i: int, j: int| 0 <= i < j < s.len() implies s[i] <= s[j] by {
            lemma_neighbours_climb(s, i, j);
        }
    }
}

proof fn lemma_neighbours_climb(s: Seq<u64>, i: int, j: int)
    requires
        forall|k: int| 0 <= k && k + 1 < s.len() ==> #[trigger] s[k] <= s[k + 1],
        0 <= i < j < s.len(),
    ensures
        s[i] <= s[j],
    decreases j,
{
    if i < j - 1 {
        lemma_neighbours_climb(s, i, j - 1);
    }
    assert(s[j - 1] <= s[j]);
}

/// Where ids have the same elements, there are as many of them, and each occurs as often.
pub proof fn lemma_same_elements(a: Seq<u64>, b: Seq<u64>)
    ensures
        same_elements(a, b) ==> {
            &&& a.len() == b.len()
            &&& forall|x: u64| a.to_multiset().count(x) == b.to_multiset().count(x)
            &&& forall|x: u64| #[trigger] a.contains(x) <==> b.contains(x)
        },
        (forall|x: u64| #[trigger] a.to_multiset().count(x) == b.to_multiset().count(x))
            ==> same_elements(a, b),
{
    broadcast use vstd::seq_lib::group_to_multiset_ensures;

    if same_elements(a, b) {
        assert(a.len() == a.to_multiset().len());
        assert(b.len() == b.to_multiset().len());
        assert forall|x: u64| #[trigger] a.contains(x) <==> b.contains(x) by {
            assert(a.contains(x) <==> a.to_multiset().count(x) > 0);
            assert(b.contains(x) <==> b.to_multiset().count(x) > 0);
        }
    }
    if forall|x: u64| #[trigger] a.to_multiset().count(x) == b.to_multiset().count(x) {
        assert(a.to_multiset() =~= b.to_multiset());
    }
}

/// What a shard's rows come to. Ids come out only of as many rows as were counted, no two of them
/// the same: they are those rows, in strictly increasing order. Where nothing refuses, they do
/// come out of every such set of rows; of another number, a row is missing; and of two rows that
/// are the same, one is there twice.
pub proof fn lemma_scan_decides<C: CancelCheck>(
    live: usize,
    rows: Seq<u64>,
    before: C,
    after: C,
    r: Result<Vec<u64>, ShardError>,
)
    requires
        checked_ids(live, rows, before, after, r),
    ensures
        r matches Ok(ids) ==> {
            &&& ids@.len() == live
            &&& rows.len() == live
            &&& forall|i: int, j: int| 0 <= i < j < ids@.len() ==> ids@[i] < ids@[j]
            &&& forall|x: u64| #[trigger] ids@.contains(x) <==> rows.contains(x)
        },
        before.never_refuses() ==> {
            let distinct = forall|i: int, j: int| 0 <= i < j < rows.len() ==> rows[i] != rows[j];
            &&& rows.len() != live ==> r == Err::<Vec<u64>, ShardError>(
                ShardError::Protocol(ProtocolFault::MissingRows),
            )
            &&& rows.len() == live && !distinct ==> r == Err::<Vec<u64>, ShardError>(
                ShardError::Protocol(ProtocolFault::DuplicateRows),
            )
            &&& rows.len() == live && distinct ==> r is Ok
        },
{
    if r is Ok {
        lemma_same_elements((r->Ok_0)@, rows);
    }
    let distinct = forall|i: int, j: int| 0 <= i < j < rows.len() ==> rows[i] != rows[j];
    if distinct {
        assert(rows.no_duplicates());
    }
    if rows.no_duplicates() {
        assert(distinct);
    }
}

/// How often steps are polled: one poll is due for every 256 steps that were begun.
pub proof fn lemma_step_polls(n: nat)
    ensures
        n <= 256 * step_polls(n) < n + 256,
{
    lemma_limits();
}

/// How often a sort polls: at both ends of a leaf of up to 4096 ids, and at both ends of a level,
/// with one poll for every 256 ids counted and one for every 256 partitioned, and more for what is
/// sorted below it.
pub proof fn lemma_sort_polls(ids: vstd::multiset::Multiset<u64>, shift: u32)
    ensures
        ids.len() <= 4096 ==> sort_polls(ids, shift) == 2,
        ids.len() > 4096 ==> sort_polls(ids, shift) >= 2 + 2 * step_polls(ids.len()),
        ids.len() > 4096 && shift < 8 ==> sort_polls(ids, shift) == 2 + 2 * step_polls(ids.len()),
{
    lemma_limits();
}

/// How often neighbours are compared and polled: of all `n` ids where no two are the same, with
/// one poll at the end; and up to the first pair that is the same otherwise.
pub proof fn lemma_unique_polls(s: Seq<u64>, i: int)
    ensures
        no_equal_neighbours(s) <==> forall|j: int|
            0 <= j && j + 1 < s.len() ==> #[trigger] s[j] != s[j + 1],
        no_equal_neighbours(s) && s.len() > 0 ==> unique_polls(s) == step_polls(
            (s.len() - 1) as nat,
        ) + 1,
        s.len() == 0 ==> unique_polls(s) == 1,
        0 <= i && i + 1 < s.len() && s[i] == s[i + 1] && (forall|j: int|
            0 <= j < i ==> #[trigger] s[j] != s[j + 1]) ==> unique_polls(s) == step_polls(
            (i + 1) as nat,
        ),
{
    if 0 <= i && i + 1 < s.len() && s[i] == s[i + 1] && (forall|j: int|
        0 <= j < i ==> #[trigger] s[j] != s[j + 1]) {
        assert(first_equal_at(s, i));
        let f = first_equal(s);
        assert(first_equal_at(s, f));
        if f > i {
            assert(s[i] != s[i + 1]);
        }
        if f < i {
            assert(s[f] != s[f + 1]);
        }
    }
}

/// What the buckets of a level take: a bucket of at most one id nothing, and every other one what
/// its ids take from the next byte down. A bucket is the ids that have one value in the byte.
pub proof fn lemma_bucket_polls(ids: vstd::multiset::Multiset<u64>, shift: u32, k: nat)
    requires
        8 <= shift,
    ensures
        ({
            let bucket = ids.filter(|id: u64| (id >> shift) & 0xff == k as u64);
            &&& bucket_polls(ids, shift, 0) == 0
            &&& k < 256 ==> bucket_polls(ids, shift, k + 1) == bucket_polls(ids, shift, k)
                + if bucket.len() < 2 {
                0
            } else {
                sort_polls(bucket, (shift - 8) as u32)
            }
            &&& ids.len() > 4096 ==> sort_polls(ids, shift) == 2 + 2 * step_polls(ids.len())
                + bucket_polls(ids, shift, 256)
        }),
{
    broadcast use vstd::multiset::group_multiset_axioms;

    lemma_limits();
    if k < 256 {
        let bucket = ids.filter(|id: u64| (id >> shift) & 0xff == k as u64);
        assert(with_byte(ids, shift, k as int) =~= bucket);
    }
}

/// How often a scan polls: as often as sorting the rows does, and, where none is missing, as often
/// as comparing them in order does. It ends early only at a refusal, which is then the last poll;
/// where it is fixed which poll is refused, it ends there exactly where it gets so far.
pub proof fn lemma_scan_polls<C: CancelCheck>(
    live: usize,
    rows: Seq<u64>,
    before: C,
    after: C,
    r: Result<Vec<u64>, ShardError>,
)
    requires
        checked_ids(live, rows, before, after, r),
    ensures
        ({
            let sorted = sort_polls(rows.to_multiset(), 56);
            let compared = if rows.len() == live {
                unique_polls(in_order(rows))
            } else {
                0
            };
            let due = before.polls().len() + sorted + compared;
            &&& after.polls().len() <= due
            &&& r is Ok ==> after.polls().len() == due
            &&& r is Ok ==> !(after.polls().len() > before.polls().len()
                && after.polls()[after.polls().len() - 1] is Err)
            &&& r matches Err(e) ==> {
                ||| after.polls().len() == due
                ||| after.polls().len() > before.polls().len()
                    && after.polls()[after.polls().len() - 1] == Err::<(), ShardError>(e)
            }
            &&& before.refused_poll() matches Some(n) ==> {
                &&& before.polls().len() <= n < due ==> r is Err && after.polls().len() == n + 1
                &&& !(before.polls().len() <= n < due) ==> after.polls().len() == due
            }
        }),
{
    if r is Err && stopped(before.polls(), after.polls(), r->Err_0) {
        lemma_polls_read(before.polls(), after.polls(), r->Err_0);
        assert(after.polls()[after.polls().len() - 1] is Err);
    }
}

} // verus!
