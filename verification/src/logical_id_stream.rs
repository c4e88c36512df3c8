//! The serving side of the logical-id protocol: which requests are admitted, and how a
//! snapshot that was taken once is given out in bounded frames.

use vstd::prelude::*;

use crate::logical_id_scan::increasing;
use crate::logical_id_wire::{
    CollectorView, FrameView, LOGICAL_IDS_PER_FRAME, LiveLogicalIdsFrame, LiveLogicalIdsRequest,
    MAX_ENUMERATION_MICROS, MAX_LIVE_LOGICAL_IDS, collected, frame_fault, fresh_collector,
    stream_result,
};

verus! {

/// The dictionaries that a loaded shard slot was built with.
#[derive(Clone, Copy, Debug, PartialEq, Eq, Structural)]
pub struct SlotIdentity {
    pub dict_fingerprint: u64,
    pub tag_dict_fingerprint: u64,
}

/// What the server knows of the position that a request names.
#[derive(Clone, Copy, Debug, PartialEq, Eq, Structural)]
pub struct ServedPosition {
    pub placement_generation: u64,
    pub num_shards: u32,
    /// The slot, where one is loaded.
    pub slot: Option<SlotIdentity>,
    /// Whether no other enumeration is in progress.
    pub permit: bool,
}

/// Why a request is not admitted.
#[derive(Clone, Copy, Debug, PartialEq, Eq, Structural)]
pub enum AdmissionFault {
    DeadlineExhausted,
    InvalidLimit,
    PlacementMismatch,
    SlotNotLoaded,
    FingerprintMismatch,
    Busy,
}

impl AdmissionFault {
    /// What the message says.
    pub open spec fn text(self) -> Seq<char> {
        match self {
            AdmissionFault::DeadlineExhausted => "logical-ID snapshot deadline exhausted"@,
            AdmissionFault::InvalidLimit => "invalid logical-ID enumeration limit"@,
            AdmissionFault::PlacementMismatch => "placement configuration mismatch"@,
            AdmissionFault::SlotNotLoaded => "shard slot is not loaded"@,
            AdmissionFault::FingerprintMismatch =>
                "logical-ID enumeration fingerprint mismatch"@,
            AdmissionFault::Busy => "logical-ID enumeration already in progress"@,
        }
    }

    /// The message for an operator.
    pub fn message(&self) -> (out: String)
        ensures
            out@ == self.text(),
    {
        match self {
            AdmissionFault::DeadlineExhausted => {
                "logical-ID snapshot deadline exhausted".to_owned()
            },
            AdmissionFault::InvalidLimit => "invalid logical-ID enumeration limit".to_owned(),
            AdmissionFault::PlacementMismatch => "placement configuration mismatch".to_owned(),
            AdmissionFault::SlotNotLoaded => "shard slot is not loaded".to_owned(),
            AdmissionFault::FingerprintMismatch => {
                "logical-ID enumeration fingerprint mismatch".to_owned()
            },
            AdmissionFault::Busy => "logical-ID enumeration already in progress".to_owned(),
        }
    }
}

/// An admitted request.
#[derive(Clone, Copy, Debug, PartialEq, Eq, Structural)]
pub struct Admission {
    pub max_ids: usize,
    /// How long the enumeration may take.
    pub budget_micros: u64,
}

/// What keeps a request from being admitted, if anything.
pub open spec fn admission_fault(
    request: LiveLogicalIdsRequest,
    served: ServedPosition,
) -> Option<AdmissionFault> {
    if request.remaining_micros == 0 {
        Some(AdmissionFault::DeadlineExhausted)
    } else if !(1 <= request.max_ids <= MAX_LIVE_LOGICAL_IDS) {
        Some(AdmissionFault::InvalidLimit)
    } else if request.placement_generation != served.placement_generation || request.num_shards
        != served.num_shards {
        Some(AdmissionFault::PlacementMismatch)
    } else if served.slot is None {
        Some(AdmissionFault::SlotNotLoaded)
    } else if served.slot->0.dict_fingerprint != request.dict_fingerprint
        || served.slot->0.tag_dict_fingerprint != request.tag_dict_fingerprint {
        Some(AdmissionFault::FingerprintMismatch)
    } else if !served.permit {
        Some(AdmissionFault::Busy)
    } else {
        None
    }
}

/// Admits a request for the position that the server holds. The budget is what the caller has
/// left, and at most one minute.
pub fn admit_request(request: &LiveLogicalIdsRequest, served: &ServedPosition) -> (r: Result<
    Admission,
    AdmissionFault,
>)
    ensures
        match r {
            Ok(admission) => {
                &&& admission_fault(*request, *served) is None
                &&& admission.max_ids == request.max_ids
                &&& admission.budget_micros == if request.remaining_micros
                    <= MAX_ENUMERATION_MICROS {
                    request.remaining_micros
                } else {
                    MAX_ENUMERATION_MICROS
                }
            },
            Err(fault) => admission_fault(*request, *served) == Some(fault),
        },
{
    if request.remaining_micros == 0 {
        return Err(AdmissionFault::DeadlineExhausted);
    }
    if request.max_ids < 1 || request.max_ids > MAX_LIVE_LOGICAL_IDS as u64 {
        return Err(AdmissionFault::InvalidLimit);
    }
    if request.placement_generation != served.placement_generation || request.num_shards
        != served.num_shards {
        return Err(AdmissionFault::PlacementMismatch);
    }
    let slot = match served.slot {
        Some(slot) => slot,
        None => {
            return Err(AdmissionFault::SlotNotLoaded);
        },
    };
    if slot.dict_fingerprint != request.dict_fingerprint || slot.tag_dict_fingerprint
        != request.tag_dict_fingerprint {
        return Err(AdmissionFault::FingerprintMismatch);
    }
    if !served.permit {
        return Err(AdmissionFault::Busy);
    }
    let budget_micros: u64 = if request.remaining_micros <= MAX_ENUMERATION_MICROS {
        request.remaining_micros
    } else {
        MAX_ENUMERATION_MICROS
    };
    Ok(Admission { max_ids: request.max_ids as usize, budget_micros })
}

// ---- Frames --------------------------------------------------------------------------------

/// How many ids a frame may carry under a byte cap: eight bytes each, with room left for the
/// identity and the count, at least one and at most the protocol's limit.
pub open spec fn capacity(max_bytes: nat) -> nat {
    let fit = if max_bytes >= 64 {
        ((max_bytes - 64) / 8) as nat
    } else {
        0
    };
    if fit < 1 {
        1
    } else if fit > LOGICAL_IDS_PER_FRAME {
        LOGICAL_IDS_PER_FRAME as nat
    } else {
        fit
    }
}

/// How many ids a frame may carry under a byte cap.
pub fn frame_capacity(max_bytes: usize) -> (r: usize)
    ensures
        r == capacity(max_bytes as nat),
        1 <= r <= LOGICAL_IDS_PER_FRAME,
{
    let fit: usize = max_bytes.saturating_sub(64) / 8;
    if fit < 1 {
        1
    } else if fit > LOGICAL_IDS_PER_FRAME {
        LOGICAL_IDS_PER_FRAME
    } else {
        fit
    }
}

/// The lesser of two numbers.
pub open spec fn least(a: int, b: int) -> int {
    if a <= b {
        a
    } else {
        b
    }
}

/// The frame that starts at an offset of the snapshot: the next ids, or the terminal frame.
pub open spec fn frame_at(
    request: LiveLogicalIdsRequest,
    ids: Seq<u64>,
    offset: int,
    per_frame: int,
) -> FrameView {
    FrameView {
        logical_ids: ids.subrange(offset, least(offset + per_frame, ids.len() as int)),
        total_ids: ids.len() as u64,
        complete: offset == ids.len(),
        shard_id: request.shard_id,
        placement_generation: request.placement_generation,
        num_shards: request.num_shards,
    }
}

/// What a stream has to say next.
#[derive(Debug, PartialEq, Eq)]
pub enum Offer {
    /// Nothing more.
    End,
    /// The deadline has passed; nothing comes after this.
    Expired,
    /// A frame, to be measured and handed to `measured`.
    Frame(LiveLogicalIdsFrame),
}

/// The view of `FrameStream`.
#[verifier::ext_equal]
pub struct StreamView {
    pub request: LiveLogicalIdsRequest,
    pub ids: Seq<u64>,
    pub offset: nat,
    pub per_frame: nat,
    pub max_bytes: nat,
    /// The snapshot was given back before its end.
    pub released: bool,
    pub finished: bool,
}

/// A snapshot on its way out.
pub struct FrameStream {
    request: LiveLogicalIdsRequest,
    ids: Vec<u64>,
    offset: usize,
    per_frame: usize,
    max_bytes: usize,
    released: bool,
    finished: bool,
}

impl View for FrameStream {
    type V = StreamView;

    closed spec fn view(&self) -> StreamView {
        StreamView {
            request: self.request,
            ids: self.ids@,
            offset: self.offset as nat,
            per_frame: self.per_frame as nat,
            max_bytes: self.max_bytes as nat,
            released: self.released,
            finished: self.finished,
        }
    }
}

/// The stream that has given its snapshot back and ended.
pub open spec fn ended(stream: StreamView) -> StreamView {
    StreamView { ids: Seq::empty(), offset: 0, released: true, finished: true, ..stream }
}

impl FrameStream {
    /// What every stream keeps: it never stands behind the end of its snapshot.
    #[verifier::type_invariant]
    spec fn within(self) -> bool {
        self.offset <= self.ids@.len()
    }

    /// The stream of a snapshot under a byte cap.
    pub fn new(request: LiveLogicalIdsRequest, ids: Vec<u64>, max_bytes: usize) -> (r: Self)
        ensures
            r@ == (StreamView {
                request,
                ids: ids@,
                offset: 0,
                per_frame: capacity(max_bytes as nat),
                max_bytes: max_bytes as nat,
                released: false,
                finished: false,
            }),
    {
        FrameStream {
            request,
            ids,
            offset: 0,
            per_frame: frame_capacity(max_bytes),
            max_bytes,
            released: false,
            finished: false,
        }
    }

    /// Gives the snapshot back at the deadline, whether or not anyone still reads the stream.
    pub fn release(&mut self)
        ensures
            final(self)@ == (StreamView {
                ids: Seq::empty(),
                offset: 0,
                released: true,
                ..old(self)@
            }),
    {
        self.offset = 0;
        self.ids = Vec::new();
        self.released = true;
        assert(self.ids@ =~= Seq::<u64>::empty());
    }

    /// What comes next, given whether the deadline has passed.
    pub fn offer(&mut self, expired: bool) -> (r: Offer)
        ensures
            old(self)@.offset <= old(self)@.ids.len(),
            ({
                let before = old(self)@;
                if before.finished {
                    r is End && final(self)@ == before
                } else if expired || before.released {
                    r is Expired && final(self)@ == ended(before)
                } else {
                    &&& r matches Offer::Frame(frame) && frame@ == frame_at(
                        before.request,
                        before.ids,
                        before.offset as int,
                        before.per_frame as int,
                    )
                    &&& final(self)@ == (StreamView {
                        offset: least(
                            (before.offset + before.per_frame) as int,
                            before.ids.len() as int,
                        ) as nat,
                        ..before
                    })
                }
            }),
    {
        proof {
            use_type_invariant(&*self);
        }
        if self.finished {
            return Offer::End;
        }
        if expired || self.released {
            self.offset = 0;
            self.ids = Vec::new();
            self.released = true;
            self.finished = true;
            assert(self.ids@ =~= Seq::<u64>::empty());
            return Offer::Expired;
        }
        let complete: bool = self.offset == self.ids.len();
        let room: usize = self.ids.len() - self.offset;
        let end: usize = if self.per_frame <= room {
            self.offset + self.per_frame
        } else {
            self.ids.len()
        };
        let mut logical_ids: Vec<u64> = Vec::new();
        let mut i: usize = self.offset;
        while i < end
            invariant
                self.offset <= i <= end <= self.ids.len(),
                logical_ids@ == self.ids@.subrange(self.offset as int, i as int),
            decreases end - i,
        {
            logical_ids.push(self.ids[i]);
            i = i + 1;
            assert(logical_ids@ =~= self.ids@.subrange(self.offset as int, i as int));
        }
        let frame = LiveLogicalIdsFrame {
            logical_ids,
            total_ids: self.ids.len() as u64,
            complete,
            shard_id: self.request.shard_id,
            placement_generation: self.request.placement_generation,
            num_shards: self.request.num_shards,
        };
        self.offset = end;
        Offer::Frame(frame)
    }

    /// Decides on an offered frame by its encoded length: one over the cap is not sent, and
    /// ends the stream, as the terminal frame does.
    pub fn measured(&mut self, frame: LiveLogicalIdsFrame, encoded_len: usize) -> (r: Option<
        LiveLogicalIdsFrame,
    >)
        ensures
            match r {
                Some(sent) => {
                    &&& encoded_len <= old(self)@.max_bytes
                    &&& sent == frame
                    &&& final(self)@ == if frame.complete {
                        ended(old(self)@)
                    } else {
                        old(self)@
                    }
                },
                None => {
                    &&& encoded_len > old(self)@.max_bytes
                    &&& final(self)@ == ended(old(self)@)
                },
            },
    {
        let fits: bool = encoded_len <= self.max_bytes;
        if !fits || frame.complete {
            self.offset = 0;
            self.ids = Vec::new();
            self.released = true;
            self.finished = true;
            assert(self.ids@ =~= Seq::<u64>::empty());
        }
        if fits {
            Some(frame)
        } else {
            None
        }
    }
}

// ---- What is sent is what is collected -----------------------------------------------------

/// How many data frames a snapshot takes.
pub open spec fn data_frames(len: int, per_frame: int) -> int {
    (len + per_frame - 1) / per_frame
}

/// The frames of a whole snapshot: its ids in order, then the terminal frame.
pub open spec fn frames_of(
    request: LiveLogicalIdsRequest,
    ids: Seq<u64>,
    per_frame: int,
) -> Seq<FrameView> {
    Seq::new(
        (data_frames(ids.len() as int, per_frame) + 1) as nat,
        |k: int| frame_at(request, ids, least(k * per_frame, ids.len() as int), per_frame),
    )
}

/// Successive offers start where the last one ended: the frame after the one at
/// `k * per_frame` starts at `(k + 1) * per_frame`.
pub proof fn lemma_offers_in_sequence(len: int, per_frame: int, k: int)
    requires
        0 <= len,
        0 < per_frame,
        0 <= k,
    ensures
        least(least(k * per_frame, len) + per_frame, len) == least((k + 1) * per_frame, len),
{
    assert((k + 1) * per_frame == k * per_frame + per_frame) by (nonlinear_arith);
}

proof fn lemma_frame_bounds(len: int, per_frame: int, k: int)
    requires
        0 <= len,
        0 < per_frame,
        0 <= k,
    ensures
        k < data_frames(len, per_frame) ==> k * per_frame < len,
        k >= data_frames(len, per_frame) ==> k * per_frame >= len,
        data_frames(len, per_frame) >= 0,
        k * per_frame >= 0,
        (k + 1) * per_frame == k * per_frame + per_frame,
{
    let n = data_frames(len, per_frame);
    let x = len + per_frame - 1;
    vstd::arithmetic::div_mod::lemma_fundamental_div_mod(x, per_frame);
    vstd::arithmetic::div_mod::lemma_mod_bound(x, per_frame);
    assert(per_frame * n <= x);
    assert(x < per_frame * n + per_frame);
    assert(n >= 0) by {
        vstd::arithmetic::div_mod::lemma_div_pos_is_pos(x, per_frame);
    }
    assert(k * per_frame >= 0) by (nonlinear_arith)
        requires
            k >= 0,
            per_frame > 0,
    ;
    assert((k + 1) * per_frame == k * per_frame + per_frame) by (nonlinear_arith);
    if k < n {
        assert((k + 1) * per_frame <= n * per_frame) by (nonlinear_arith)
            requires
                k + 1 <= n,
                per_frame > 0,
        ;
        assert(n * per_frame == per_frame * n) by (nonlinear_arith);
    } else {
        assert(n * per_frame <= k * per_frame) by (nonlinear_arith)
            requires
                n <= k,
                per_frame > 0,
        ;
        assert(n * per_frame == per_frame * n) by (nonlinear_arith);
    }
}

proof fn lemma_collecting(
    request: LiveLogicalIdsRequest,
    ids: Seq<u64>,
    per_frame: int,
    k: nat,
)
    requires
        increasing(ids),
        ids.len() <= request.max_ids,
        ids.len() <= MAX_LIVE_LOGICAL_IDS,
        1 <= per_frame <= LOGICAL_IDS_PER_FRAME,
        k <= data_frames(ids.len() as int, per_frame),
    ensures
        collected(fresh_collector(request), frames_of(request, ids, per_frame), k) == Some(
            CollectorView {
                total: if k == 0 {
                    None
                } else {
                    Some(ids.len())
                },
                ids: ids.take(least(k * per_frame, ids.len() as int)),
                ..fresh_collector(request)
            },
        ),
    decreases k,
{
    let len = ids.len() as int;
    let frames = frames_of(request, ids, per_frame);
    lemma_frame_bounds(len, per_frame, 0);
    if k == 0 {
        assert(ids.take(0) =~= Seq::<u64>::empty());
    } else {
        let j = (k - 1) as nat;
        lemma_collecting(request, ids, per_frame, j);
        lemma_frame_bounds(len, per_frame, j as int);
        let before = collected(fresh_collector(request), frames, j)->0;
        let from = least(j * per_frame, len);
        let to = least(k * per_frame, len);
        assert(from == j * per_frame);
        assert(k * per_frame == j * per_frame + per_frame);
        let frame = frames[j as int];
        assert(frame == frame_at(request, ids, from, per_frame));
        assert(frame.logical_ids == ids.subrange(from, to));
        assert(ids.len() as u64 == ids.len());
        assert(increasing(frame.logical_ids));
        assert(before.ids =~= ids.take(from));
        if before.ids.len() > 0 {
            assert(before.ids.last() == ids[from - 1]);
            assert(frame.logical_ids[0] == ids[from]);
        }
        assert(frame_fault(before, frame) is None);
        assert(before.ids + frame.logical_ids =~= ids.take(to));
    }
}

/// The frames of a snapshot, collected by the client that asked for it, are the snapshot.
pub proof fn lemma_stream_collects(
    request: LiveLogicalIdsRequest,
    ids: Seq<u64>,
    per_frame: int,
)
    requires
        increasing(ids),
        ids.len() <= request.max_ids,
        ids.len() <= MAX_LIVE_LOGICAL_IDS,
        1 <= per_frame <= LOGICAL_IDS_PER_FRAME,
    ensures
        stream_result(request, frames_of(request, ids, per_frame)) == Some(ids),
{
    let len = ids.len() as int;
    let n = data_frames(len, per_frame);
    lemma_frame_bounds(len, per_frame, 0);
    lemma_frame_bounds(len, per_frame, n);
    lemma_collecting(request, ids, per_frame, n as nat);
    let frames = frames_of(request, ids, per_frame);
    let before = collected(fresh_collector(request), frames, n as nat)->0;
    assert(least(n * per_frame, len) == len);
    assert(before.ids =~= ids);
    let last = frames[n];
    assert(last.logical_ids =~= Seq::<u64>::empty());
    assert(ids.len() as u64 == ids.len());
    assert(frame_fault(before, last) is None);
    assert(frames.len() == n + 1);
    assert(before.ids + last.logical_ids =~= ids);
}

} // verus!
