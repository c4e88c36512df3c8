use std::time::{Duration, Instant};

use reverse_rusty::cancel::{deadline_answer, CancelCheck, Deadline, PollBudget};
use reverse_rusty::error::{ConfigFault, ProtocolFault, ShardError};
use reverse_rusty::logical_id_directory::{
    compact_ids, move_ids, plan_installation, Installation, RemoteLogicalIds,
};
use reverse_rusty::logical_id_scan::{
    bounded_live_logical_ids, scan_with_room, sort_ids, validate_unique, IdSnapshot,
};
use reverse_rusty::logical_id_stream::{
    admit_request, frame_capacity, AdmissionFault, FrameStream, Offer, ServedPosition,
    SlotIdentity,
};
use reverse_rusty::logical_id_wire::{
    collect_frames, IdCollector, IdFault, LiveLogicalIdsFrame, LiveLogicalIdsRequest,
    LOGICAL_IDS_PER_FRAME, MAX_LIVE_LOGICAL_IDS,
};

#[test]
fn logical_ids_cancellable_sort_matches_standard_sort() {
    let mut seed = 41_u64;
    let shuffled: Vec<_> = (0..20_000)
        .map(|_| {
            seed = seed.wrapping_mul(6_364_136_223_846_793_005).wrapping_add(1);
            seed
        })
        .collect();
    for mut ids in [
        Vec::new(),
        vec![u64::MAX, 0, 1, u64::MAX],
        (0..20_000).rev().collect(),
        vec![u64::MAX; 20_000],
        (0..20_000).map(|id| id % 512).collect(),
        shuffled,
    ] {
        let mut expected = ids.clone();
        expected.sort_unstable();
        sort_ids(&mut ids, 56, &mut PollBudget::new(0)).expect("sort");
        assert_eq!(ids, expected);
    }
}

#[test]
fn logical_ids_sort_and_validation_observe_mid_operation_cancellation() {
    for stop_at in [2, 50, 100, 200] {
        let mut ids: Vec<_> = (0..20_000).rev().collect();
        let mut check = PollBudget::new(stop_at);
        assert!(matches!(
            sort_ids(&mut ids, 56, &mut check),
            Err(ShardError::DeadlineExceeded)
        ));
        assert_eq!(check.count(), stop_at);
    }
    let ids: Vec<_> = (0..20_000).collect();
    let mut check = PollBudget::new(3);
    assert!(matches!(
        validate_unique(&ids, &mut check),
        Err(ShardError::DeadlineExceeded)
    ));
    assert_eq!(check.count(), 3);
    assert!(validate_unique(&[0, 1, 1], &mut PollBudget::new(0)).is_err());
    assert!(validate_unique(&[0, 1, u64::MAX], &mut PollBudget::new(0)).is_ok());
}

#[test]
fn a_cancelled_sort_keeps_the_ids() {
    let reversed: Vec<u64> = (0..20_000).rev().collect();
    let mut ids = reversed.clone();
    assert!(sort_ids(&mut ids, 56, &mut PollBudget::new(150)).is_err());
    ids.sort_unstable();
    let mut expected = reversed;
    expected.sort_unstable();
    assert_eq!(ids, expected);
}

#[test]
fn a_sort_polls_at_both_ends_and_every_256_steps() {
    let mut small: Vec<u64> = (0..4096).rev().collect();
    let mut check = PollBudget::new(0);
    sort_ids(&mut small, 56, &mut check).expect("leaf");
    assert_eq!(check.count(), 2);
    let mut large: Vec<u64> = vec![7; 5000];
    let mut check = PollBudget::new(0);
    sort_ids(&mut large, 0, &mut check).expect("one level");
    assert_eq!(check.count(), 2 + 2 * 20);
}

#[test]
fn every_level_of_a_sort_polls() {
    // Seven levels of 20,000 ids, the last of which leaves 79 buckets to the standard sort.
    let all = 7 * (2 + 2 * 79) + 79 * 2;
    let mut ids: Vec<u64> = (0..20_000).rev().collect();
    let mut check = PollBudget::new(0);
    sort_ids(&mut ids, 56, &mut check).expect("sort");
    assert_eq!(check.count(), all);
    for stop_at in [1, 161, 500, all] {
        let mut ids: Vec<u64> = (0..20_000).rev().collect();
        let mut check = PollBudget::new(stop_at);
        assert_eq!(
            sort_ids(&mut ids, 56, &mut check),
            Err(ShardError::DeadlineExceeded)
        );
        assert_eq!(check.count(), stop_at);
    }
    let mut ids: Vec<u64> = (0..20_000).collect();
    let mut late = PollBudget::new(all + 1);
    assert_eq!(sort_ids(&mut ids, 56, &mut late), Ok(()));
    assert_eq!(late.count(), all);
}

#[test]
fn a_scan_follows_from_the_room_it_was_given() {
    let mut check = PollBudget::new(0);
    assert_eq!(
        scan_with_room(2, &vec![9, 4], Err("no memory".to_string()), &mut check),
        Err(ShardError::Config(ConfigFault::SnapshotAllocation {
            detail: "no memory".to_string()
        }))
    );
    assert_eq!(check.count(), 0);
    assert_eq!(
        scan_with_room(1, &vec![9, 4], Ok(Vec::new()), &mut check),
        Err(ShardError::Protocol(ProtocolFault::CountChanged))
    );
    assert_eq!(check.count(), 0);
    assert_eq!(
        scan_with_room(2, &vec![9, 4], Ok(vec![77]), &mut check),
        Ok(vec![4, 9])
    );
    assert_eq!(check.count(), 2 + 2);
    assert_eq!(
        scan_with_room(3, &vec![9, 4], Ok(Vec::new()), &mut PollBudget::new(0)),
        Err(ShardError::Protocol(ProtocolFault::MissingRows))
    );
    let mut twice = PollBudget::new(0);
    assert_eq!(
        scan_with_room(2, &vec![4, 4], Ok(Vec::new()), &mut twice),
        Err(ShardError::Protocol(ProtocolFault::DuplicateRows))
    );
    assert_eq!(twice.count(), 2 + 1);
    // The first equal pair of the sorted rows is the 257th.
    let late: Vec<u64> = (0..=256).rev().chain([256]).collect();
    let mut twice = PollBudget::new(0);
    assert_eq!(
        scan_with_room(258, &late, Ok(Vec::new()), &mut twice),
        Err(ShardError::Protocol(ProtocolFault::DuplicateRows))
    );
    assert_eq!(twice.count(), 2 + 2);
    assert_eq!(
        scan_with_room(0, &vec![], Ok(Vec::new()), &mut PollBudget::new(0)),
        Ok(vec![])
    );
    let mut refusing = PollBudget::new(2);
    assert_eq!(
        scan_with_room(2, &vec![9, 4], Ok(Vec::new()), &mut refusing),
        Err(ShardError::DeadlineExceeded)
    );
    assert_eq!(refusing.count(), 2);
}

#[test]
fn a_deadline_refuses_once_it_is_reached() {
    let mut past = Deadline::new(Instant::now());
    assert_eq!(past.check(), Err(ShardError::DeadlineExceeded));
    let mut future = Deadline::new(Instant::now() + Duration::from_secs(3600));
    assert_eq!(future.check(), Ok(()));
    let start = Instant::now();
    let minute = Deadline::new(start + Duration::from_secs(60));
    assert_eq!(minute.answer_at(start + Duration::from_secs(59)), Ok(()));
    assert_eq!(
        minute.answer_at(start + Duration::from_secs(60)),
        Err(ShardError::DeadlineExceeded)
    );
    assert_eq!(
        minute.answer_at(start + Duration::from_secs(61)),
        Err(ShardError::DeadlineExceeded)
    );
    assert_eq!(deadline_answer(true), Err(ShardError::DeadlineExceeded));
    assert_eq!(deadline_answer(false), Ok(()));
}

#[test]
fn logical_ids_refuse_duplicate_missing_and_extra_rows_and_limits() {
    let ids = |live: usize, rows: &[u64], max: usize| {
        bounded_live_logical_ids(live, &rows.to_vec(), max, &mut PollBudget::new(0))
    };
    assert_eq!(ids(1, &[7], 1), Ok(vec![7]));
    assert_eq!(ids(3, &[9, u64::MAX, 0], 3), Ok(vec![0, 9, u64::MAX]));
    assert_eq!(ids(0, &[], 0), Ok(vec![]));
    let over = ids(1, &[7], 0).unwrap_err();
    assert_eq!(
        over,
        ShardError::Config(ConfigFault::TooManyIds { live: 1, limit: 0 })
    );
    assert_eq!(
        over.message(),
        "live logical-ID count 1 exceeds enumeration limit 0"
    );
    let duplicate = ids(2, &[7, 7], 2).unwrap_err();
    assert_eq!(
        duplicate,
        ShardError::Protocol(ProtocolFault::DuplicateRows)
    );
    assert_eq!(
        duplicate.message(),
        "live logical-ID snapshot has duplicate index rows"
    );
    let missing = ids(3, &[7, 8], 3).unwrap_err();
    assert_eq!(missing, ShardError::Protocol(ProtocolFault::MissingRows));
    assert_eq!(
        missing.message(),
        "live logical-ID snapshot has missing index rows"
    );
    let extra = ids(1, &[7, 8], 3).unwrap_err();
    assert_eq!(extra, ShardError::Protocol(ProtocolFault::CountChanged));
    assert_eq!(extra.message(), "live logical-ID count changed");
    assert_eq!(
        bounded_live_logical_ids(1, &vec![7], 1, &mut PollBudget::new(1)),
        Err(ShardError::DeadlineExceeded)
    );
    assert_eq!(ShardError::DeadlineExceeded.message(), "deadline exceeded");
}

#[test]
fn logical_ids_scan_index_and_refuse_duplicate_rows_and_expired_lock_waits() {
    let deadline = || Deadline::new(Instant::now() + Duration::from_secs(2));
    let mut index = vec![7];
    assert_eq!(
        bounded_live_logical_ids(1, &index, 1, &mut deadline()).expect("index ids"),
        vec![7]
    );
    assert!(bounded_live_logical_ids(1, &index, 0, &mut deadline()).is_err());
    assert!(matches!(
        bounded_live_logical_ids(1, &index, 1, &mut Deadline::new(Instant::now())),
        Err(ShardError::DeadlineExceeded)
    ));
    index.push(7);
    assert!(bounded_live_logical_ids(2, &index, 2, &mut deadline()).is_err());
    index.clear();
    assert!(bounded_live_logical_ids(0, &index, 1, &mut deadline())
        .expect("empty")
        .is_empty());
}

#[test]
fn a_snapshot_reports_that_it_could_not_be_allocated() {
    let failed = IdSnapshot::with_room(3, Vec::new(), Err("no memory".to_string()));
    let error = failed.err().expect("refused");
    assert_eq!(
        error.message(),
        "allocating logical-ID snapshot: no memory"
    );
    let huge = IdSnapshot::begin(usize::MAX, usize::MAX).err().expect("too large");
    assert!(matches!(
        huge,
        ShardError::Config(ConfigFault::SnapshotAllocation { .. })
    ));
    let mut snapshot = IdSnapshot::begin(1, 1).ok().expect("room for one");
    assert_eq!(snapshot.accept(5), Ok(()));
    assert!(snapshot.accept(6).is_err());
    assert_eq!(snapshot.finish(&mut PollBudget::new(0)), Ok(vec![5]));
}

fn request(max_ids: u64) -> LiveLogicalIdsRequest {
    LiveLogicalIdsRequest {
        shard_id: 2,
        dict_fingerprint: 0,
        tag_dict_fingerprint: 0,
        placement_generation: 3,
        num_shards: 4,
        max_ids,
        remaining_micros: 0,
    }
}

fn collector() -> IdCollector {
    IdCollector::new(&request(10))
}

fn frame(ids: &[u64], total: u64, complete: bool) -> LiveLogicalIdsFrame {
    LiveLogicalIdsFrame {
        logical_ids: ids.to_vec(),
        total_ids: total,
        complete,
        shard_id: 2,
        placement_generation: 3,
        num_shards: 4,
    }
}

#[test]
fn logical_ids_require_completion_even_for_empty_and_exact_count_streams() {
    assert!(collector().finish().is_err());
    let mut empty = collector();
    empty.push(frame(&[], 0, true)).expect("empty summary");
    assert!(empty.finish().expect("complete empty set").is_empty());
    let mut truncated = collector();
    truncated
        .push(frame(&[0, u64::MAX], 2, false))
        .expect("data");
    assert!(truncated.finish().is_err());
    let mut complete = collector();
    complete.push(frame(&[0], 2, false)).expect("first");
    complete.push(frame(&[u64::MAX], 2, false)).expect("second");
    complete.push(frame(&[], 2, true)).expect("summary");
    assert_eq!(complete.finish().expect("complete"), vec![0, u64::MAX]);
}

#[test]
fn logical_ids_reject_malformed_frames_and_partial_completions() {
    let cases = [
        frame(&[], 2, false),
        frame(&[2, 1], 2, false),
        frame(&[1, 1], 2, false),
        frame(&[1], 0, false),
        frame(&[1], 11, false),
        frame(&[1], 1, true),
        frame(&[], 1, true),
        LiveLogicalIdsFrame {
            shard_id: 9,
            ..frame(&[1], 1, false)
        },
        LiveLogicalIdsFrame {
            placement_generation: 9,
            ..frame(&[1], 1, false)
        },
        LiveLogicalIdsFrame {
            num_shards: 9,
            ..frame(&[1], 1, false)
        },
        frame(&vec![1; LOGICAL_IDS_PER_FRAME + 1], 2, false),
    ];
    for bad in cases {
        assert!(collector().push(bad).is_err());
    }
    for bad in [
        frame(&[1], 2, false),
        frame(&[2], 3, false),
        frame(&[], 2, true),
    ] {
        let mut partial = collector();
        partial.push(frame(&[1], 2, false)).expect("first");
        assert!(partial.push(bad).is_err());
    }
    for extra in [frame(&[], 0, true), frame(&[1], 1, false)] {
        let mut done = collector();
        done.push(frame(&[], 0, true)).expect("summary");
        assert!(done.push(extra).is_err());
    }
}

#[test]
fn each_frame_fault_has_its_name_and_message() {
    let cases = [
        (
            LiveLogicalIdsFrame {
                shard_id: 9,
                ..frame(&[1], 1, false)
            },
            IdFault::IdentityMismatch,
            "logical-ID snapshot identity mismatch",
        ),
        (
            frame(&[1], 11, false),
            IdFault::ExceedsLimits,
            "logical-ID snapshot exceeds enumeration limits",
        ),
        (
            frame(&[], 1, true),
            IdFault::CompletionMismatch,
            "logical-ID completion count mismatch",
        ),
        (
            frame(&[2, 1], 2, false),
            IdFault::MalformedData,
            "logical-ID data is empty, unordered, duplicated, or over count",
        ),
    ];
    for (bad, fault, message) in cases {
        assert_eq!(collector().push(bad), Err(fault));
        assert_eq!(fault.message(), message);
    }
    let mut partial = collector();
    partial.push(frame(&[1], 2, false)).expect("first");
    assert_eq!(
        partial.push(frame(&[2], 3, false)),
        Err(IdFault::CountChanged)
    );
    assert_eq!(
        IdFault::CountChanged.message(),
        "logical-ID snapshot count changed"
    );
    let mut done = collector();
    done.push(frame(&[], 0, true)).expect("summary");
    assert_eq!(
        done.push(frame(&[], 0, true)),
        Err(IdFault::AfterCompletion)
    );
    assert_eq!(
        IdFault::AfterCompletion.message(),
        "logical-ID frame after completion"
    );
    assert_eq!(collector().finish(), Err(IdFault::Unfinished));
    assert_eq!(
        IdFault::Unfinished.message(),
        "logical-ID stream ended without completion"
    );
    let mut full = collector();
    assert_eq!(full.take_data(vec![1], false), Err(IdFault::Allocation));
    assert_eq!(
        IdFault::Allocation.message(),
        "allocating logical-ID directory"
    );
    assert_eq!(
        IdFault::CountOutOfRange.message(),
        "logical-ID count is out of range"
    );
}

/// Runs a stream to its end with a fixed encoded length per frame.
fn drain(mut stream: FrameStream, encoded: usize) -> Vec<LiveLogicalIdsFrame> {
    let mut frames = Vec::new();
    loop {
        match stream.offer(false) {
            Offer::End => return frames,
            Offer::Expired => panic!("no deadline here"),
            Offer::Frame(frame) => match stream.measured(frame, encoded) {
                Some(frame) => frames.push(frame),
                None => panic!("over the cap"),
            },
        }
    }
}

#[test]
fn what_a_stream_gives_out_is_what_is_collected() {
    for count in [0u64, 1, 7, 8, 9, 100] {
        let ids: Vec<u64> = (0..count).map(|i| i * 3).collect();
        let asked = LiveLogicalIdsRequest {
            max_ids: 100,
            ..request(0)
        };
        let frames = drain(FrameStream::new(asked, ids.clone(), 128), 100);
        assert_eq!(frames.len() as u64, count.div_ceil(8) + 1);
        assert!(frames.iter().all(|f| f.logical_ids.len() <= 8));
        assert_eq!(collect_frames(&asked, frames), Ok(ids));
    }
}

#[test]
fn a_stream_without_its_last_frame_gives_no_ids() {
    let asked = request(10);
    let mut frames = drain(FrameStream::new(asked, vec![1, 2, 3], 128), 10);
    frames.pop();
    assert_eq!(collect_frames(&asked, frames), Err(IdFault::Unfinished));
    let asked = request(10);
    assert_eq!(
        collect_frames(&asked, vec![frame(&[], 0, true)]),
        Ok(vec![])
    );
    assert_eq!(
        collect_frames(&asked, vec![frame(&[3], 2, false), frame(&[2], 2, false)]),
        Err(IdFault::MalformedData)
    );
}

#[test]
fn frames_stay_within_the_byte_cap() {
    assert_eq!(frame_capacity(0), 1);
    assert_eq!(frame_capacity(64), 1);
    assert_eq!(frame_capacity(128), 8);
    assert_eq!(frame_capacity(1 << 20), LOGICAL_IDS_PER_FRAME);
    let mut tiny = FrameStream::new(request(10), vec![], 1);
    let Offer::Frame(frame) = tiny.offer(false) else {
        panic!("a frame")
    };
    assert!(frame.complete);
    assert_eq!(tiny.measured(frame, 12), None);
    assert_eq!(tiny.offer(false), Offer::End);
}

#[test]
fn an_expired_or_released_stream_ends_with_one_error() {
    let mut stream = FrameStream::new(request(10), vec![1, 2], 128);
    assert_eq!(stream.offer(true), Offer::Expired);
    assert_eq!(stream.offer(false), Offer::End);
    let mut stream = FrameStream::new(request(10), vec![1, 2], 128);
    stream.release();
    assert_eq!(stream.offer(false), Offer::Expired);
    assert_eq!(stream.offer(false), Offer::End);
}

#[test]
fn requests_are_admitted_only_for_what_the_server_holds() {
    let good = LiveLogicalIdsRequest {
        shard_id: 0,
        dict_fingerprint: 5,
        tag_dict_fingerprint: 6,
        placement_generation: 1,
        num_shards: 1,
        max_ids: 10_000,
        remaining_micros: 5_000_000,
    };
    let served = ServedPosition {
        placement_generation: 1,
        num_shards: 1,
        slot: Some(SlotIdentity {
            dict_fingerprint: 5,
            tag_dict_fingerprint: 6,
        }),
        permit: true,
    };
    let admission = admit_request(&good, &served).expect("admitted");
    assert_eq!(admission.max_ids, 10_000);
    assert_eq!(admission.budget_micros, 5_000_000);
    let patient = LiveLogicalIdsRequest {
        remaining_micros: 90_000_000,
        ..good
    };
    assert_eq!(
        admit_request(&patient, &served).expect("capped").budget_micros,
        60_000_000
    );
    let cases = [
        (
            LiveLogicalIdsRequest { max_ids: 0, ..good },
            AdmissionFault::InvalidLimit,
        ),
        (
            LiveLogicalIdsRequest {
                max_ids: MAX_LIVE_LOGICAL_IDS as u64 + 1,
                ..good
            },
            AdmissionFault::InvalidLimit,
        ),
        (
            LiveLogicalIdsRequest {
                dict_fingerprint: 0,
                ..good
            },
            AdmissionFault::FingerprintMismatch,
        ),
        (
            LiveLogicalIdsRequest {
                tag_dict_fingerprint: 0,
                ..good
            },
            AdmissionFault::FingerprintMismatch,
        ),
        (
            LiveLogicalIdsRequest {
                placement_generation: 0,
                ..good
            },
            AdmissionFault::PlacementMismatch,
        ),
        (
            LiveLogicalIdsRequest {
                remaining_micros: 0,
                ..good
            },
            AdmissionFault::DeadlineExhausted,
        ),
    ];
    for (bad, fault) in cases {
        assert_eq!(admit_request(&bad, &served), Err(fault));
    }
    let unloaded = ServedPosition {
        slot: None,
        ..served
    };
    assert_eq!(
        admit_request(&good, &unloaded),
        Err(AdmissionFault::SlotNotLoaded)
    );
    let busy = ServedPosition {
        permit: false,
        ..served
    };
    assert_eq!(admit_request(&good, &busy), Err(AdmissionFault::Busy));
    assert_eq!(
        AdmissionFault::Busy.message(),
        "logical-ID enumeration already in progress"
    );
    assert_eq!(
        AdmissionFault::InvalidLimit.message(),
        "invalid logical-ID enumeration limit"
    );
    assert_eq!(
        AdmissionFault::FingerprintMismatch.message(),
        "logical-ID enumeration fingerprint mismatch"
    );
    let asked = LiveLogicalIdsRequest::for_position(0, 5, 6, 1, 1, 7);
    assert_eq!(asked.max_ids, 100_000_000);
    assert!(admit_request(&asked, &served).is_ok());
}

#[test]
fn logical_ids_compact_duplicate_placement_capacity_before_install() {
    let mut ids = Vec::with_capacity(2_000);
    ids.extend(0..1_000);
    ids.extend(0..1_000);
    ids.sort_unstable();
    ids.dedup();
    let compact = compact_ids(ids).expect("compact");
    assert_eq!(compact, (0..1_000).collect::<Vec<_>>());
    assert_eq!(compact.capacity(), compact.len());
    assert_eq!(
        compact_ids(Vec::with_capacity(100))
            .expect("empty")
            .capacity(),
        0
    );
}

#[test]
fn a_directory_is_the_union_of_every_copy() {
    let mut collected = RemoteLogicalIds::default();
    assert!(!collected.needs_enumeration(&Ok(0)));
    assert!(collected.needs_enumeration(&Ok(3)));
    assert!(collected.needs_enumeration(&Err(ShardError::DeadlineExceeded)));
    collected.add_copy(Ok(vec![5, 9, 9, 1]), 0, 0);
    collected.add_copy(Ok(vec![9, 2, 1]), 0, 1);
    collected.add_copy(Ok(vec![]), 1, 0);
    match plan_installation(collected) {
        Installation::Install { ids, converged } => {
            assert_eq!(ids, vec![1, 2, 5, 9]);
            assert!(!converged, "a union of ids proves no convergence");
        }
        Installation::Unavailable(e) => panic!("{}", e.message()),
    }
    assert_eq!(
        plan_installation(RemoteLogicalIds::default()),
        Installation::Install {
            ids: vec![],
            converged: true
        }
    );
}

/// Adds copies as a coordinator does, and says which were asked anything and which enumerated.
fn rebuild(
    copies: Vec<(Result<usize, ShardError>, Result<Vec<u64>, ShardError>)>,
) -> (RemoteLogicalIds, Vec<usize>, Vec<usize>) {
    let mut collected = RemoteLogicalIds::default();
    let (mut asked, mut enumerated) = (Vec::new(), Vec::new());
    for (number, (num_queries, answer)) in copies.into_iter().enumerate() {
        if !collected.is_open() {
            continue;
        }
        asked.push(number);
        if collected.needs_enumeration(&num_queries) {
            enumerated.push(number);
            collected.add_copy(answer, number, 0);
        }
    }
    (collected, asked, enumerated)
}

#[test]
fn a_whole_directory_is_the_union_or_the_first_failure() {
    let gone = || ShardError::Remote("gone".to_string());
    let (whole, asked, enumerated) = rebuild(vec![
        (Ok(2), Ok(vec![9, 3])),
        (Ok(0), Err(gone())),
        (Err(gone()), Ok(vec![3, 4])),
        (Ok(1), Ok(vec![])),
    ]);
    assert_eq!(asked, vec![0, 1, 2, 3]);
    assert_eq!(enumerated, vec![0, 2, 3]);
    assert_eq!(whole.finish(), Ok(vec![3, 4, 9]));

    let (failed, asked, enumerated) = rebuild(vec![
        (Ok(2), Ok(vec![9, 3])),
        (Ok(0), Ok(vec![8])),
        (Ok(1), Err(gone())),
        (Ok(1), Err(ShardError::DeadlineExceeded)),
        (Ok(2), Ok(vec![1, 2])),
    ]);
    assert_eq!(asked, vec![0, 1, 2]);
    assert_eq!(enumerated, vec![0, 2]);
    assert_eq!(
        failed.finish().unwrap_err().message(),
        "enumerating logical IDs at position 2 copy 0: gone"
    );

    let (empty, _, enumerated) = rebuild(vec![(Ok(0), Err(gone())), (Ok(1), Ok(vec![]))]);
    assert!(empty.is_open());
    assert_eq!(enumerated, vec![1]);
    assert_eq!(
        plan_installation(empty),
        Installation::Install {
            ids: vec![],
            converged: true
        }
    );
}

#[test]
fn one_failed_copy_keeps_the_whole_directory_unavailable() {
    let mut collected = RemoteLogicalIds::default();
    collected.add_copy(Ok(vec![5]), 0, 0);
    collected.add_copy(Err(ShardError::Remote("gone".to_string())), 3, 1);
    assert!(!collected.needs_enumeration(&Ok(3)));
    collected.add_copy(Ok(vec![6]), 4, 0);
    collected.add_copy(Err(ShardError::Remote("later".to_string())), 5, 0);
    let error = collected.finish().unwrap_err();
    assert_eq!(
        error.message(),
        "enumerating logical IDs at position 3 copy 1: gone"
    );
    let mut no_room = RemoteLogicalIds::default();
    let refused = no_room
        .merge_ids(vec![1], Err("no memory".to_string()))
        .unwrap_err();
    assert_eq!(
        refused.message(),
        "allocating logical-ID directory: no memory"
    );
    let refused = move_ids(vec![1], Vec::new(), Err("no memory".to_string())).unwrap_err();
    assert_eq!(
        refused.message(),
        "compacting logical-ID directory: no memory"
    );
}

/// One physical copy: the rows of its index, and its byte cap on an answer.
struct PhysicalCopy {
    rows: Vec<u64>,
    cap: usize,
}

fn copy_of(rows: &[u64]) -> PhysicalCopy {
    PhysicalCopy {
        rows: rows.to_vec(),
        cap: 4096,
    }
}

/// Scans, streams and collects the ids of a copy, as its server and the coordinator do.
fn enumerate(copy: &PhysicalCopy, position: u32) -> Result<Vec<u64>, ShardError> {
    let request = LiveLogicalIdsRequest::for_position(position, 0, 0, 1, 3, 1_000_000);
    let ids = bounded_live_logical_ids(
        copy.rows.len(),
        &copy.rows,
        MAX_LIVE_LOGICAL_IDS,
        &mut PollBudget::new(0),
    )?;
    let mut stream = FrameStream::new(request, ids, copy.cap);
    let mut frames = Vec::new();
    loop {
        match stream.offer(false) {
            Offer::End => break,
            Offer::Expired => panic!("no deadline here"),
            Offer::Frame(frame) => {
                let encoded = 24 + 8 * frame.logical_ids.len();
                match stream.measured(frame, encoded) {
                    Some(frame) => frames.push(frame),
                    None => {
                        return Err(ShardError::Remote(
                            "logical-ID frame exceeds result byte cap".to_string(),
                        ))
                    }
                }
            }
        }
    }
    collect_frames(&request, frames).map_err(|fault| ShardError::Remote(fault.message()))
}

/// Attaches to positions of copies, and counts the copies that were enumerated.
fn attach(positions: &[Vec<PhysicalCopy>]) -> (Installation, usize) {
    let mut collected = RemoteLogicalIds::default();
    let mut calls = 0;
    for (position, copies) in positions.iter().enumerate() {
        for (number, copy) in copies.iter().enumerate() {
            if collected.is_open() && collected.needs_enumeration(&Ok(copy.rows.len())) {
                calls += 1;
                collected.add_copy(enumerate(copy, position as u32), position, number);
            }
        }
    }
    (plan_installation(collected), calls)
}

fn installed(installation: Installation) -> (Vec<u64>, bool) {
    match installation {
        Installation::Install { ids, converged } => (ids, converged),
        Installation::Unavailable(e) => panic!("{}", e.message()),
    }
}

fn unavailable(installation: Installation) -> String {
    match installation {
        Installation::Install { .. } => panic!("installed"),
        Installation::Unavailable(e) => e.message(),
    }
}

/// The rows of three positions: ids spread over them, and one row that every position holds.
fn corpus_without(deleted: u64) -> Vec<Vec<PhysicalCopy>> {
    (0..3)
        .map(|position| {
            let mut rows: Vec<u64> = (0..100)
                .rev()
                .filter(|id| id % 3 == position && *id != deleted)
                .collect();
            rows.push(u64::MAX);
            vec![copy_of(&rows)]
        })
        .collect()
}

#[test]
fn grpc_logical_ids_reattach_restores_creates_but_not_unproven_exhaustive_state() {
    let (installation, calls) = attach(&corpus_without(7));
    let (ids, converged) = installed(installation);
    for id in [0, 9, u64::MAX] {
        assert!(ids.binary_search(&id).is_ok(), "a duplicate");
    }
    for id in [7, 1000] {
        assert!(ids.binary_search(&id).is_err(), "free to create");
    }
    assert_eq!(ids.len(), 100);
    assert!(!converged, "ID union is not historical convergence evidence");
    assert_eq!(calls, 3);
}

#[test]
fn grpc_logical_ids_restore_after_replica_failover_and_coordinator_reattach() {
    let even: Vec<u64> = (0..100).step_by(2).chain([u64::MAX]).collect();
    let odd: Vec<u64> = (1..100).step_by(2).chain([u64::MAX]).collect();
    let (installation, calls) = attach(&[
        vec![copy_of(&even), copy_of(&even)],
        vec![copy_of(&odd), copy_of(&odd)],
    ]);
    let (ids, _) = installed(installation);
    assert_eq!(calls, 4);
    assert_eq!(ids, (0..100).chain([u64::MAX]).collect::<Vec<u64>>());
    assert!(ids.binary_search(&0).is_ok());
    assert!(ids.binary_search(&1000).is_err());

    let grown: Vec<u64> = even.iter().copied().chain([1000]).collect();
    let (survivors, calls) = attach(&[vec![copy_of(&grown)], vec![copy_of(&odd)]]);
    let (ids, _) = installed(survivors);
    assert_eq!(calls, 2);
    assert!(ids.binary_search(&1000).is_ok());
    assert!(ids.binary_search(&1001).is_err());
}

#[test]
fn grpc_logical_ids_one_failed_position_keeps_the_whole_directory_unavailable() {
    let positions: Vec<Vec<PhysicalCopy>> = [4096, 1]
        .into_iter()
        .map(|cap| vec![PhysicalCopy { rows: vec![0], cap }])
        .collect();
    let (installation, calls) = attach(&positions);
    assert_eq!(calls, 2);
    assert_eq!(
        unavailable(installation),
        "enumerating logical IDs at position 1 copy 0: logical-ID frame exceeds result byte cap"
    );
}

#[test]
fn grpc_logical_ids_reserve_stale_replica_ids_even_with_an_empty_primary() {
    for (populated_primary, broken_replica) in [(false, false), (true, false), (false, true)] {
        let primary = copy_of(if populated_primary { &[8] } else { &[] });
        let replica = PhysicalCopy {
            rows: vec![7],
            cap: if broken_replica { 1 } else { 4096 },
        };
        let (installation, calls) = attach(&[vec![primary, replica]]);
        assert_eq!(calls, if populated_primary { 2 } else { 1 });
        if broken_replica {
            assert_eq!(
                unavailable(installation),
                "enumerating logical IDs at position 0 copy 1: logical-ID frame exceeds result \
                 byte cap"
            );
        } else {
            let (ids, converged) = installed(installation);
            assert_eq!(ids, if populated_primary { vec![7, 8] } else { vec![7] });
            assert!(ids.binary_search(&7).is_ok(), "a duplicate");
            assert!(ids.binary_search(&9).is_err(), "a fresh ID");
            assert!(!converged);
        }
    }
}
