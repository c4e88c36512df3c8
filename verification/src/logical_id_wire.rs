//! The bounded, complete snapshot protocol for logical ids: what a request and a frame hold,
//! how a server cuts a snapshot into frames, and how a client puts it together again.
//!
//! Every frame repeats the identity of the snapshot and its count. Data frames carry strictly
//! increasing ids; exactly one empty terminal frame attests completion. No partial set leaves
//! the collector.

use vstd::prelude::*;

use crate::logical_id_scan::increasing;

verus! {

/// The most ids that one position, or a directory, may have.
pub const MAX_LIVE_LOGICAL_IDS: usize = 100_000_000;

/// The most ids that one frame may carry.
pub const LOGICAL_IDS_PER_FRAME: usize = 4096;

/// The longest that one enumeration may take.
pub const MAX_ENUMERATION_MICROS: u64 = 60_000_000;

/// What a client asks for.
#[derive(Clone, Copy, Debug, PartialEq, Eq, Structural)]
pub struct LiveLogicalIdsRequest {
    pub shard_id: u32,
    pub dict_fingerprint: u64,
    pub tag_dict_fingerprint: u64,
    pub placement_generation: u64,
    pub num_shards: u32,
    pub max_ids: u64,
    pub remaining_micros: u64,
}

impl LiveLogicalIdsRequest {
    /// The request of a coordinator that attaches to a position: everything that the position
    /// holds, attested by the fingerprints and the placement that the coordinator knows.
    pub fn for_position(
        shard_id: u32,
        dict_fingerprint: u64,
        tag_dict_fingerprint: u64,
        placement_generation: u64,
        num_shards: u32,
        remaining_micros: u64,
    ) -> (r: Self)
        ensures
            r == (LiveLogicalIdsRequest {
                shard_id,
                dict_fingerprint,
                tag_dict_fingerprint,
                placement_generation,
                num_shards,
                max_ids: MAX_LIVE_LOGICAL_IDS as u64,
                remaining_micros,
            }),
    {
        LiveLogicalIdsRequest {
            shard_id,
            dict_fingerprint,
            tag_dict_fingerprint,
            placement_generation,
            num_shards,
            max_ids: MAX_LIVE_LOGICAL_IDS as u64,
            remaining_micros,
        }
    }
}

/// One frame of the answer.
#[derive(Debug, PartialEq, Eq)]
pub struct LiveLogicalIdsFrame {
    pub logical_ids: Vec<u64>,
    pub total_ids: u64,
    pub complete: bool,
    pub shard_id: u32,
    pub placement_generation: u64,
    pub num_shards: u32,
}

/// The view of `LiveLogicalIdsFrame`.
#[verifier::ext_equal]
pub struct FrameView {
    pub logical_ids: Seq<u64>,
    pub total_ids: u64,
    pub complete: bool,
    pub shard_id: u32,
    pub placement_generation: u64,
    pub num_shards: u32,
}

impl View for LiveLogicalIdsFrame {
    type V = FrameView;

    open spec fn view(&self) -> FrameView {
        FrameView {
            logical_ids: self.logical_ids@,
            total_ids: self.total_ids,
            complete: self.complete,
            shard_id: self.shard_id,
            placement_generation: self.placement_generation,
            num_shards: self.num_shards,
        }
    }
}

/// Why a stream of frames is refused.
#[derive(Clone, Copy, Debug, PartialEq, Eq, Structural)]
pub enum IdFault {
    /// A frame came after the terminal one.
    AfterCompletion,
    /// The frame is of another snapshot.
    IdentityMismatch,
    /// The count does not fit this machine.
    CountOutOfRange,
    /// The count or the frame is over its limit.
    ExceedsLimits,
    /// Two frames give different counts.
    CountChanged,
    /// The terminal frame carries data, or not all ids came before it.
    CompletionMismatch,
    /// A data frame is empty, unordered, repeats an id, or is over the count.
    MalformedData,
    /// The ids could not be allocated.
    Allocation,
    /// The stream ended without a terminal frame.
    Unfinished,
}

impl IdFault {
    /// What the message says.
    pub open spec fn text(self) -> Seq<char> {
        match self {
            IdFault::AfterCompletion => "logical-ID frame after completion"@,
            IdFault::IdentityMismatch => "logical-ID snapshot identity mismatch"@,
            IdFault::CountOutOfRange => "logical-ID count is out of range"@,
            IdFault::ExceedsLimits => "logical-ID snapshot exceeds enumeration limits"@,
            IdFault::CountChanged => "logical-ID snapshot count changed"@,
            IdFault::CompletionMismatch => "logical-ID completion count mismatch"@,
            IdFault::MalformedData =>
                "logical-ID data is empty, unordered, duplicated, or over count"@,
            IdFault::Allocation => "allocating logical-ID directory"@,
            IdFault::Unfinished => "logical-ID stream ended without completion"@,
        }
    }

    /// The message for an operator.
    pub fn message(&self) -> (out: String)
        ensures
            out@ == self.text(),
    {
        match self {
            IdFault::AfterCompletion => "logical-ID frame after completion".to_owned(),
            IdFault::IdentityMismatch => "logical-ID snapshot identity mismatch".to_owned(),
            IdFault::CountOutOfRange => "logical-ID count is out of range".to_owned(),
            IdFault::ExceedsLimits => "logical-ID snapshot exceeds enumeration limits".to_owned(),
            IdFault::CountChanged => "logical-ID snapshot count changed".to_owned(),
            IdFault::CompletionMismatch => "logical-ID completion count mismatch".to_owned(),
            IdFault::MalformedData => {
                "logical-ID data is empty, unordered, duplicated, or over count".to_owned()
            },
            IdFault::Allocation => "allocating logical-ID directory".to_owned(),
            IdFault::Unfinished => "logical-ID stream ended without completion".to_owned(),
        }
    }
}

// ---- The collector -------------------------------------------------------------------------

/// The view of `IdCollector`.
#[verifier::ext_equal]
pub struct CollectorView {
    pub shard_id: u32,
    pub generation: u64,
    pub num_shards: u32,
    pub max_ids: nat,
    pub total: Option<nat>,
    pub complete: bool,
    pub ids: Seq<u64>,
}

/// Puts the frames of one snapshot together.
pub struct IdCollector {
    shard_id: u32,
    generation: u64,
    num_shards: u32,
    max_ids: usize,
    total: Option<usize>,
    complete: bool,
    ids: Vec<u64>,
}

impl View for IdCollector {
    type V = CollectorView;

    closed spec fn view(&self) -> CollectorView {
        CollectorView {
            shard_id: self.shard_id,
            generation: self.generation,
            num_shards: self.num_shards,
            max_ids: self.max_ids as nat,
            total: match self.total {
                Some(total) => Some(total as nat),
                None => None,
            },
            complete: self.complete,
            ids: self.ids@,
        }
    }
}

/// A collector that has seen no frame.
pub open spec fn fresh_collector(request: LiveLogicalIdsRequest) -> CollectorView {
    CollectorView {
        shard_id: request.shard_id,
        generation: request.placement_generation,
        num_shards: request.num_shards,
        max_ids: if request.max_ids <= MAX_LIVE_LOGICAL_IDS {
            request.max_ids as nat
        } else {
            MAX_LIVE_LOGICAL_IDS as nat
        },
        total: None,
        complete: false,
        ids: Seq::empty(),
    }
}

/// Whether a data frame continues what was collected.
pub open spec fn continues(collected: Seq<u64>, total: nat, data: Seq<u64>) -> bool {
    &&& data.len() > 0
    &&& collected.len() + data.len() <= total
    &&& increasing(data)
    &&& collected.len() > 0 ==> collected.last() < data[0]
}

/// What is wrong with a frame, if anything.
pub open spec fn frame_fault(c: CollectorView, frame: FrameView) -> Option<IdFault> {
    let total = frame.total_ids as nat;
    if c.complete {
        Some(IdFault::AfterCompletion)
    } else if frame.shard_id != c.shard_id || frame.placement_generation != c.generation
        || frame.num_shards != c.num_shards {
        Some(IdFault::IdentityMismatch)
    } else if total > usize::MAX {
        Some(IdFault::CountOutOfRange)
    } else if total > c.max_ids || frame.logical_ids.len() > LOGICAL_IDS_PER_FRAME {
        Some(IdFault::ExceedsLimits)
    } else if c.total is Some && c.total->0 != total {
        Some(IdFault::CountChanged)
    } else if frame.complete {
        if frame.logical_ids.len() != 0 || c.ids.len() != total {
            Some(IdFault::CompletionMismatch)
        } else {
            None
        }
    } else if !continues(c.ids, total, frame.logical_ids) {
        Some(IdFault::MalformedData)
    } else {
        None
    }
}

/// The collector that has taken note of a frame's count.
pub open spec fn counted(c: CollectorView, frame: FrameView) -> CollectorView {
    CollectorView { total: Some(frame.total_ids as nat), ..c }
}

/// The collector after a frame without fault.
pub open spec fn taken(c: CollectorView, frame: FrameView) -> CollectorView {
    CollectorView {
        total: Some(frame.total_ids as nat),
        complete: frame.complete,
        ids: c.ids + frame.logical_ids,
        ..c
    }
}

fn strictly_increasing(ids: &Vec<u64>) -> (r: bool)
    ensures
        r == increasing(ids@),
{
    let mut i: usize = 1;
    while i < ids.len()
        invariant
            1 <= i,
            i <= ids.len() || ids.len() == 0,
            forall|a: int, b: int| 0 <= a < b < i && b < ids.len() ==> ids@[a] < ids@[b],
        decreases ids.len() - i,
    {
        if ids[i - 1] >= ids[i] {
            return false;
        }
        assert forall|a: int, b: int| 0 <= a < b < i + 1 implies ids@[a] < ids@[b] by {
            if b == i && a < i - 1 {
                assert(ids@[a] < ids@[i - 1]);
            }
        }
        i = i + 1;
    }
    true
}

impl IdCollector {
    /// A collector of the snapshot that `request` asks for.
    pub fn new(request: &LiveLogicalIdsRequest) -> (r: Self)
        ensures
            r@ == fresh_collector(*request),
    {
        let max_ids: usize = if request.max_ids <= MAX_LIVE_LOGICAL_IDS as u64 {
            request.max_ids as usize
        } else {
            MAX_LIVE_LOGICAL_IDS
        };
        IdCollector {
            shard_id: request.shard_id,
            generation: request.placement_generation,
            num_shards: request.num_shards,
            max_ids,
            total: None,
            complete: false,
            ids: Vec::new(),
        }
    }

    /// Takes the next frame. A frame with a fault adds no id and completes nothing; where the
    /// fault is in what the frame carries, its count has been noted. Where memory runs out the
    /// frame is refused in the same way.
    pub fn push(&mut self, frame: LiveLogicalIdsFrame) -> (r: Result<(), IdFault>)
        ensures
            match r {
                Ok(()) => {
                    &&& frame_fault(old(self)@, frame@) is None
                    &&& final(self)@ == taken(old(self)@, frame@)
                },
                Err(IdFault::Allocation) => {
                    &&& frame_fault(old(self)@, frame@) is None
                    &&& !frame.complete
                    &&& final(self)@ == counted(old(self)@, frame@)
                },
                Err(fault) => {
                    &&& frame_fault(old(self)@, frame@) == Some(fault)
                    &&& final(self)@ == if fault is CompletionMismatch || fault is MalformedData {
                        counted(old(self)@, frame@)
                    } else {
                        old(self)@
                    }
                },
            },
    {
        if self.complete {
            return Err(IdFault::AfterCompletion);
        }
        if frame.shard_id != self.shard_id || frame.placement_generation != self.generation
            || frame.num_shards != self.num_shards {
            return Err(IdFault::IdentityMismatch);
        }
        if frame.total_ids > usize::MAX as u64 {
            return Err(IdFault::CountOutOfRange);
        }
        let total: usize = frame.total_ids as usize;
        if total > self.max_ids || frame.logical_ids.len() > LOGICAL_IDS_PER_FRAME {
            return Err(IdFault::ExceedsLimits);
        }
        match self.total {
            Some(previous) => {
                if previous != total {
                    return Err(IdFault::CountChanged);
                }
            },
            None => {},
        }
        self.total = Some(total);
        if frame.complete {
            if frame.logical_ids.len() != 0 || self.ids.len() != total {
                return Err(IdFault::CompletionMismatch);
            }
            self.complete = true;
            assert(old(self)@.ids + frame@.logical_ids =~= old(self)@.ids);
            return Ok(());
        }
        if frame.logical_ids.len() == 0 || self.ids.len() > total || frame.logical_ids.len() > total
            - self.ids.len() || !strictly_increasing(&frame.logical_ids) || (self.ids.len() > 0
            && self.ids[self.ids.len() - 1] >= frame.logical_ids[0]) {
            return Err(IdFault::MalformedData);
        }
        let room: bool = self.ids.try_reserve(frame.logical_ids.len()).is_ok();
        self.take_data(frame.logical_ids, room)
    }

    /// Takes the ids of a sound data frame, given whether there is room for them.
    pub fn take_data(&mut self, data: Vec<u64>, room: bool) -> (r: Result<(), IdFault>)
        ensures
            if room {
                &&& r is Ok
                &&& final(self)@ == (CollectorView { ids: old(self)@.ids + data@, ..old(self)@ })
            } else {
                &&& r == Err::<(), IdFault>(IdFault::Allocation)
                &&& final(self)@ == old(self)@
            },
    {
        if !room {
            return Err(IdFault::Allocation);
        }
        let mut data = data;
        self.ids.append(&mut data);
        Ok(())
    }

    /// The complete set.
    pub fn finish(self) -> (r: Result<Vec<u64>, IdFault>)
        ensures
            match r {
                Ok(ids) => self@.complete && ids@ == self@.ids,
                Err(fault) => !self@.complete && fault is Unfinished,
            },
    {
        if !self.complete {
            return Err(IdFault::Unfinished);
        }
        Ok(self.ids)
    }
}

// ---- What is collected ---------------------------------------------------------------------

/// What every collector keeps: the ids strictly increase and are at most as many as announced
/// and allowed, and a complete one has all of them.
pub open spec fn collector_consistent(c: CollectorView) -> bool {
    &&& increasing(c.ids)
    &&& c.max_ids <= MAX_LIVE_LOGICAL_IDS
    &&& match c.total {
        Some(total) => c.ids.len() <= total && total <= c.max_ids,
        None => c.ids.len() == 0,
    }
    &&& c.complete ==> c.total is Some && c.ids.len() == c.total->0
}

/// Every collector is consistent from the start, and stays so whatever frame comes.
pub proof fn lemma_collector_consistent(
    request: LiveLogicalIdsRequest,
    c: CollectorView,
    frame: FrameView,
)
    requires
        collector_consistent(c),
    ensures
        collector_consistent(fresh_collector(request)),
        frame_fault(c, frame) is None ==> collector_consistent(taken(c, frame)),
        frame_fault(c, frame) matches Some(fault) && (fault is CompletionMismatch
            || fault is MalformedData) ==> collector_consistent(counted(c, frame)),
{
    if frame_fault(c, frame) is None {
        let next = taken(c, frame);
        assert forall|i: int, j: int| 0 <= i < j < next.ids.len() implies next.ids[i]
            < next.ids[j] by {
            if i < c.ids.len() && j >= c.ids.len() {
                assert(c.ids[i] <= c.ids.last());
                assert(frame.logical_ids[0] <= frame.logical_ids[j - c.ids.len()]);
            }
        }
    }
}

/// The collector after the first `k` frames, where none of them has a fault.
pub open spec fn collected(c: CollectorView, frames: Seq<FrameView>, k: nat) -> Option<
    CollectorView,
>
    decreases k,
{
    if k == 0 {
        Some(c)
    } else {
        match collected(c, frames, (k - 1) as nat) {
            Some(before) => if frame_fault(before, frames[k - 1]) is None {
                Some(taken(before, frames[k - 1]))
            } else {
                None
            },
            None => None,
        }
    }
}

/// The set that a whole stream of frames gives.
pub open spec fn stream_result(request: LiveLogicalIdsRequest, frames: Seq<FrameView>) -> Option<
    Seq<u64>,
> {
    match collected(fresh_collector(request), frames, frames.len()) {
        Some(c) => if c.complete {
            Some(c.ids)
        } else {
            None
        },
        None => None,
    }
}

/// The first fault of a stream, from frame `k` on, where `c` has collected what came before: that
/// of the first frame that has one, or that the stream ends without completion.
pub open spec fn stream_fault(c: CollectorView, frames: Seq<FrameView>, k: nat) -> Option<IdFault>
    decreases frames.len() - k,
{
    if k >= frames.len() {
        if c.complete {
            None
        } else {
            Some(IdFault::Unfinished)
        }
    } else {
        match frame_fault(c, frames[k as int]) {
            Some(fault) => Some(fault),
            None => stream_fault(taken(c, frames[k as int]), frames, k + 1),
        }
    }
}

/// A stream gives a set exactly where it has no fault.
pub proof fn lemma_stream_fault(request: LiveLogicalIdsRequest, frames: Seq<FrameView>)
    ensures
        stream_result(request, frames) is Some <==> stream_fault(
            fresh_collector(request),
            frames,
            0,
        ) is None,
{
    lemma_stream_fault_from(fresh_collector(request), frames, 0);
}

proof fn lemma_stream_fault_from(c: CollectorView, frames: Seq<FrameView>, k: nat)
    requires
        k <= frames.len(),
        collected(c, frames, k) is Some,
    ensures
        stream_fault(collected(c, frames, k)->0, frames, k) is None <==> (collected(
            c,
            frames,
            frames.len(),
        ) matches Some(done) && done.complete),
    decreases frames.len() - k,
{
    if k < frames.len() {
        let before = collected(c, frames, k)->0;
        if frame_fault(before, frames[k as int]) is None {
            lemma_stream_fault_from(c, frames, k + 1);
        } else {
            assert(collected(c, frames, k + 1) is None);
            lemma_fault_stays(c, frames, k + 1, frames.len());
        }
    }
}

/// Frame `k` of a stream brings ids that are to be stored: the frames before it were collected,
/// it has no fault, and it is not the terminal one.
pub open spec fn takes_data(
    request: LiveLogicalIdsRequest,
    frames: Seq<FrameView>,
    k: nat,
) -> bool {
    &&& k < frames.len()
    &&& collected(fresh_collector(request), frames, k) matches Some(c) && frame_fault(
        c,
        frames[k as int],
    ) is None
    &&& !frames[k as int].complete
}

/// Collects a whole stream. Where any frame has a fault, or the stream ends early, no id comes
/// out, and the first fault does; where memory runs out for the ids of a frame, that is said
/// instead.
pub fn collect_frames(
    request: &LiveLogicalIdsRequest,
    frames: Vec<LiveLogicalIdsFrame>,
) -> (r: Result<Vec<u64>, IdFault>)
    ensures
        match r {
            Ok(ids) => stream_result(*request, crate::keyed::views(frames@)) == Some(ids@),
            Err(fault) => if fault is Allocation {
                exists|k: nat| #[trigger]
                    takes_data(*request, crate::keyed::views(frames@), k)
            } else {
                stream_fault(fresh_collector(*request), crate::keyed::views(frames@), 0) == Some(
                    fault,
                )
            },
        },
{
    let ghost all = crate::keyed::views(frames@);
    let mut collector = IdCollector::new(request);
    for frame in it: frames
        invariant
            all == crate::keyed::views(it.seq()),
            collected(fresh_collector(*request), all, it.index() as nat) == Some(collector@),
            stream_fault(fresh_collector(*request), all, 0) == stream_fault(
                collector@,
                all,
                it.index() as nat,
            ),
    {
        assert(all[it.index() as int] == frame@);
        match collector.push(frame) {
            Ok(()) => {},
            Err(fault) => {
                assert(fault is Allocation ==> takes_data(*request, all, it.index() as nat));
                return Err(fault);
            },
        }
    }
    collector.finish()
}

proof fn lemma_fault_stays(c: CollectorView, frames: Seq<FrameView>, k: nat, n: nat)
    requires
        k <= n,
        collected(c, frames, k) is None,
    ensures
        collected(c, frames, n) is None,
    decreases n,
{
    if k < n {
        lemma_fault_stays(c, frames, k, (n - 1) as nat);
    }
}

proof fn lemma_collected_consistent(c: CollectorView, frames: Seq<FrameView>, k: nat)
    requires
        collector_consistent(c),
        collected(c, frames, k) is Some,
    ensures
        collector_consistent(collected(c, frames, k)->0),
        collected(c, frames, k)->0.max_ids == c.max_ids,
    decreases k,
{
    if k > 0 {
        lemma_collected_consistent(c, frames, (k - 1) as nat);
        let before = collected(c, frames, (k - 1) as nat)->0;
        lemma_collector_consistent(arbitrary(), before, frames[k - 1]);
    }
}

/// A set that comes out of a stream strictly increases, is within the requested limit, and is
/// complete: as large as every frame announced.
pub proof fn lemma_stream_sound(request: LiveLogicalIdsRequest, frames: Seq<FrameView>)
    requires
        stream_result(request, frames) is Some,
    ensures
        ({
            let ids = stream_result(request, frames)->0;
            &&& increasing(ids)
            &&& ids.len() <= request.max_ids
            &&& ids.len() <= MAX_LIVE_LOGICAL_IDS
            &&& forall|k: int|
                0 <= k < frames.len() ==> (#[trigger] frames[k]).total_ids == ids.len()
            &&& frames.len() > 0
            &&& forall|k: int|
                0 <= k < frames.len() ==> ((#[trigger] frames[k]).complete <==> k == frames.len()
                    - 1)
        }),
{
    let c = fresh_collector(request);
    lemma_collector_consistent(request, c, arbitrary());
    lemma_collected_consistent(c, frames, frames.len());
    let done = collected(c, frames, frames.len())->0;
    assert forall|k: int| 0 <= k < frames.len() implies (#[trigger] frames[k]).total_ids
        == done.ids.len() && (frames[k].complete <==> k == frames.len() - 1) by {
        lemma_total_stays(c, frames, (k + 1) as nat, frames.len());
    }
}

/// A count once noted stays, and completion ends the stream.
proof fn lemma_total_stays(c: CollectorView, frames: Seq<FrameView>, k: nat, n: nat)
    requires
        0 < k <= n,
        collected(c, frames, n) is Some,
    ensures
        collected(c, frames, k) is Some,
        collected(c, frames, k)->0.total == Some(frames[k - 1].total_ids as nat),
        collected(c, frames, k)->0.complete == frames[k - 1].complete,
        collected(c, frames, n)->0.total == Some(frames[k - 1].total_ids as nat),
        k < n ==> !frames[k - 1].complete,
    decreases n,
{
    if k < n {
        lemma_total_stays(c, frames, k, (n - 1) as nat);
        let before = collected(c, frames, (n - 1) as nat)->0;
        assert(frame_fault(before, frames[n - 1]) is None);
        if k < n - 1 {
        } else {
            assert(!before.complete);
        }
    }
}

} // verus!
