//! What the report of a data-moving rebalance says of its waves: every position once, and the
//! lowest failure.

use vstd::prelude::*;

use crate::error::ShardError;
use crate::keyed::{Keyed, lemma_sorted, lemma_sorted_distinct, sorted_by_key};
use crate::reassign::ReassignOutcome;
use crate::rebalance::{
    RebalanceView, ReportView, Verdict, absorbed, finished, lemma_wave_failed, positions_from,
    started, verdict, wave_failed, with_move, with_wave,
};

verus! {

/// A report leaves positions for another sweep only where it names a failure.
pub open spec fn report_consistent(report: ReportView) -> bool {
    report.failed is None ==> report.not_attempted.len() == 0
}

/// Every wave keeps the report consistent, and a failure that is named stays.
pub proof fn lemma_wave_consistent(
    report: ReportView,
    results: Seq<(u32, Result<ReassignOutcome, ShardError>)>,
)
    requires
        report_consistent(report),
    ensures
        report_consistent(with_wave(report, results)),
        report.failed is Some ==> with_wave(report, results).failed == report.failed,
        report.failed is None ==> (with_wave(report, results).failed is Some <==> wave_failed(
            results,
        )),
    decreases results.len(),
{
    if results.len() > 0 {
        lemma_wave_consistent(report, results.drop_last());
        let k = results.len() - 1;
        assert(results.take(k) =~= results.drop_last());
        assert(results.take(k + 1) =~= results);
        lemma_wave_failed(results, k);
    }
}

/// The report names the position: as moved, as the failure, or as left for another sweep.
pub open spec fn accounted(report: ReportView, position: u32) -> bool {
    ||| report.moved.contains(position)
    ||| report.failed matches Some((named, _)) && named == position
    ||| report.not_attempted.contains(position)
}

proof fn lemma_move_accounts(report: ReportView, position: u32, v: Verdict, named: u32)
    ensures
        accounted(report, named) ==> accounted(with_move(report, position, v), named),
        !(v is Unchanged) ==> accounted(with_move(report, position, v), position),
{
    let next = with_move(report, position, v);
    if report.moved.contains(named) {
        let i = choose|i: int| 0 <= i < report.moved.len() && report.moved[i] == named;
        assert(next.moved[i] == named);
    }
    if report.not_attempted.contains(named) {
        let i = choose|i: int|
            0 <= i < report.not_attempted.len() && report.not_attempted[i] == named;
        assert(next.not_attempted[i] == named);
    }
    match v {
        Verdict::Placed => {
            assert(next.moved[report.moved.len() as int] == position);
        },
        Verdict::Unchanged => {},
        Verdict::Failed(_) => {
            if report.failed is Some {
                assert(next.not_attempted[report.not_attempted.len() as int] == position);
            }
        },
    }
}

/// Every position of a wave is named in the report, but for those that someone else had placed.
pub proof fn lemma_wave_accounts(
    report: ReportView,
    results: Seq<(u32, Result<ReassignOutcome, ShardError>)>,
    i: int,
)
    requires
        0 <= i < results.len(),
        !(verdict(results[i].1) is Unchanged),
    ensures
        accounted(with_wave(report, results), results[i].0),
    decreases results.len(),
{
    let rest = with_wave(report, results.drop_last());
    lemma_move_accounts(rest, results.last().0, verdict(results.last().1), results[i].0);
    if i < results.len() - 1 {
        lemma_wave_accounts(report, results.drop_last(), i);
    }
}

/// Every position of a wave that is not run is among those that are left.
pub proof fn lemma_rest_is_left(waves: Seq<Seq<u32>>, from: nat, w: int, i: int)
    requires
        from <= w < waves.len(),
        0 <= i < waves[w].len(),
    ensures
        positions_from(waves, from).contains(waves[w][i]),
    decreases waves.len() - from,
{
    let rest = positions_from(waves, from + 1);
    let all = positions_from(waves, from);
    if w == from {
        assert(all[i] == waves[w][i]);
    } else {
        lemma_rest_is_left(waves, from + 1, w, i);
        let j = choose|j: int| 0 <= j < rest.len() && rest[j] == waves[w][i];
        assert(all[waves[from as int].len() + j] == waves[w][i]);
    }
}

// ---- Outcomes ------------------------------------------------------------------------------

/// A move put its target in place: its data moved, or already was there, and the map names it.
pub open spec fn has_placed(outcome: Result<ReassignOutcome, ShardError>) -> bool {
    match outcome {
        Ok(ReassignOutcome::Moved { .. }) => true,
        Ok(ReassignOutcome::Reconciled { .. }) => true,
        _ => false,
    }
}

/// A move went wrong: it ended in an error, whichever it is, or its data moved and the map does
/// not name the target.
pub open spec fn went_wrong(outcome: Result<ReassignOutcome, ShardError>) -> bool {
    match outcome {
        Ok(ReassignOutcome::MovedButNotCommitted { .. }) => true,
        Ok(_) => false,
        Err(_) => true,
    }
}

/// The message about a move that went wrong: what its error says of itself, or that the commit is
/// missing.
pub open spec fn wrong_text(outcome: Result<ReassignOutcome, ShardError>) -> Seq<char> {
    match outcome {
        Err(e) => e.text(),
        Ok(_) =>
            "data moved but committing the new owner failed (see the emitted event); stopped the rebalance so the durable map stays reconcilable — re-run to resume"@,
    }
}

/// What an outcome means: every error fails the sweep, with the error's own text; data that moved
/// without its commit fails it too; and nothing else does.
pub proof fn lemma_verdict(outcome: Result<ReassignOutcome, ShardError>)
    ensures
        verdict(outcome) is Placed <==> has_placed(outcome),
        verdict(outcome) is Failed <==> went_wrong(outcome),
        went_wrong(outcome) ==> verdict(outcome) == Verdict::Failed(wrong_text(outcome)),
        outcome matches Err(e) ==> verdict(outcome) == Verdict::Failed(e.text()),
        (outcome matches Ok(ReassignOutcome::NoChange { .. })) <==> verdict(outcome) is Unchanged,
{
}

/// A wave fails exactly where one of its results is an error, or data that moved without its
/// commit.
pub proof fn lemma_wave_fails(results: Seq<(u32, Result<ReassignOutcome, ShardError>)>)
    ensures
        wave_failed(results) <==> exists|i: int|
            0 <= i < results.len() && went_wrong((#[trigger] results[i]).1),
        forall|i: int|
            0 <= i < results.len() && (#[trigger] results[i]).1 is Err ==> wave_failed(results),
{
    if wave_failed(results) {
        let i = choose|i: int|
            0 <= i < results.len() && verdict((#[trigger] results[i]).1) is Failed;
        lemma_verdict(results[i].1);
    }
    assert forall|i: int| 0 <= i < results.len() && went_wrong(
        (#[trigger] results[i]).1,
    ) implies wave_failed(results) by {
        lemma_verdict(results[i].1);
    }
}

/// The positions that a wave puts in place, and those that it fails, by their outcomes.
pub proof fn lemma_by_outcome(
    results: Seq<(u32, Result<ReassignOutcome, ShardError>)>,
    position: u32,
)
    ensures
        places(results, position) <==> exists|i: int|
            0 <= i < results.len() && (#[trigger] results[i]).0 == position && has_placed(
                results[i].1,
            ),
        fails(results, position) <==> exists|i: int|
            0 <= i < results.len() && (#[trigger] results[i]).0 == position && went_wrong(
                results[i].1,
            ),
{
    assert forall|i: int| 0 <= i < results.len() implies (verdict(
        (#[trigger] results[i]).1,
    ) is Placed <==> has_placed(results[i].1)) && (verdict(results[i].1) is Failed <==> went_wrong(
        results[i].1,
    )) by {
        lemma_verdict(results[i].1);
    }
}

/// The first result of a wave that went wrong.
pub open spec fn first_wrong(
    results: Seq<(u32, Result<ReassignOutcome, ShardError>)>,
    i: int,
) -> bool {
    &&& 0 <= i < results.len()
    &&& went_wrong(results[i].1)
    &&& forall|j: int| 0 <= j < i ==> !went_wrong((#[trigger] results[j]).1)
}

proof fn lemma_first_wrong(
    report: ReportView,
    results: Seq<(u32, Result<ReassignOutcome, ShardError>)>,
    i: int,
)
    requires
        report.failed is None,
        first_wrong(results, i),
    ensures
        with_wave(report, results).failed == Some((results[i].0, wrong_text(results[i].1))),
    decreases results.len(),
{
    let before = results.drop_last();
    let k = results.len() - 1;
    lemma_verdict(results[i].1);
    if i < k {
        assert forall|j: int| 0 <= j < i implies !went_wrong((#[trigger] before[j]).1) by {
            assert(results[j] == before[j]);
        }
        lemma_first_wrong(report, before, i);
    } else {
        assert forall|j: int| 0 <= j < before.len() implies !went_wrong(
            (#[trigger] before[j]).1,
        ) by {
            assert(results[j] == before[j]);
        }
        lemma_smooth(report, before);
    }
}

proof fn lemma_smooth(
    report: ReportView,
    results: Seq<(u32, Result<ReassignOutcome, ShardError>)>,
)
    requires
        forall|j: int| 0 <= j < results.len() ==> !went_wrong((#[trigger] results[j]).1),
    ensures
        with_wave(report, results).failed == report.failed,
        with_wave(report, results).not_attempted == report.not_attempted,
    decreases results.len(),
{
    if results.len() > 0 {
        let before = results.drop_last();
        lemma_verdict(results.last().1);
        assert forall|j: int| 0 <= j < before.len() implies !went_wrong(
            (#[trigger] before[j]).1,
        ) by {
            assert(results[j] == before[j]);
        }
        lemma_smooth(report, before);
    }
}

proof fn lemma_moved_by(
    report: ReportView,
    results: Seq<(u32, Result<ReassignOutcome, ShardError>)>,
    p: u32,
)
    ensures
        with_wave(report, results).moved.contains(p) <==> report.moved.contains(p) || places(
            results,
            p,
        ),
    decreases results.len(),
{
    if results.len() > 0 {
        lemma_moved_by(report, results.drop_last(), p);
        lemma_one_more(results, p);
        lemma_pushed(with_wave(report, results.drop_last()).moved, results.last().0, p);
    }
}

/// A wave in which a move went wrong ends the sweep: no wave is run any more, the first failure is
/// reported with its text, and every position of the later waves is left for another sweep. After
/// any other wave the next one is run, and nothing is reported as failed or left.
pub proof fn lemma_failing_wave_stops(
    before: RebalanceView,
    results: Seq<(u32, Result<ReassignOutcome, ShardError>)>,
)
    requires
        before.at < before.waves.len(),
        before.report.failed is None,
    ensures
        ({
            let after = absorbed(before, results);
            let wrong = exists|i: int|
                0 <= i < results.len() && went_wrong((#[trigger] results[i]).1);
            &&& after.waves == before.waves
            &&& forall|p: u32| #[trigger]
                after.report.moved.contains(p) <==> before.report.moved.contains(p) || exists|
                    i: int,
                |
                    0 <= i < results.len() && (#[trigger] results[i]).0 == p && has_placed(
                        results[i].1,
                    )
            &&& !wrong ==> {
                &&& after.at == before.at + 1
                &&& after.report.failed is None
                &&& after.report.not_attempted == before.report.not_attempted
            }
            &&& wrong ==> {
                &&& after.at == before.waves.len()
                &&& after.report.failed is Some
                &&& forall|i: int| #[trigger]
                    first_wrong(results, i) ==> after.report.failed == Some(
                        (results[i].0, wrong_text(results[i].1)),
                    )
                &&& forall|w: int, j: int|
                    before.at < w < before.waves.len() && 0 <= j < before.waves[w].len()
                        ==> after.report.not_attempted.contains(#[trigger] before.waves[w][j])
            }
        }),
{
    let after = absorbed(before, results);
    let report = with_wave(before.report, results);
    lemma_wave_fails(results);
    assert forall|p: u32| #[trigger]
        after.report.moved.contains(p) <==> before.report.moved.contains(p) || exists|i: int|
            0 <= i < results.len() && (#[trigger] results[i]).0 == p && has_placed(
                results[i].1,
            ) by {
        lemma_moved_by(before.report, results, p);
        lemma_by_outcome(results, p);
    }
    if wave_failed(results) {
        let i = choose|i: int| 0 <= i < results.len() && went_wrong((#[trigger] results[i]).1);
        lemma_has_first_wrong(results, i);
        let f = choose|f: int| first_wrong(results, f);
        lemma_first_wrong(before.report, results, f);
        assert forall|i: int| #[trigger]
            first_wrong(results, i) implies after.report.failed == Some(
            (results[i].0, wrong_text(results[i].1)),
        ) by {
            lemma_first_wrong(before.report, results, i);
        }
        let left = positions_from(before.waves, before.at + 1);
        lemma_joined(report.not_attempted, left);
        assert forall|w: int, j: int|
            before.at < w < before.waves.len() && 0 <= j
                < before.waves[w].len() implies after.report.not_attempted.contains(
            #[trigger] before.waves[w][j],
        ) by {
            lemma_rest_is_left(before.waves, before.at + 1, w, j);
            let p = before.waves[w][j];
            assert((report.not_attempted + left).contains(p) <==> report.not_attempted.contains(p)
                || left.contains(p));
        }
    } else {
        lemma_smooth(before.report, results);
    }
}

proof fn lemma_has_first_wrong(
    results: Seq<(u32, Result<ReassignOutcome, ShardError>)>,
    i: int,
)
    requires
        0 <= i < results.len(),
        went_wrong(results[i].1),
    ensures
        exists|f: int| #[trigger] first_wrong(results, f),
    decreases i,
{
    if exists|j: int| 0 <= j < i && went_wrong((#[trigger] results[j]).1) {
        let j = choose|j: int| 0 <= j < i && went_wrong((#[trigger] results[j]).1);
        lemma_has_first_wrong(results, j);
    } else {
        assert(first_wrong(results, i));
    }
}

// ---- A whole sweep -------------------------------------------------------------------------

/// The results come in the order of their positions.
pub open spec fn positions_increase(
    results: Seq<(u32, Result<ReassignOutcome, ShardError>)>,
) -> bool {
    forall|i: int, j: int|
        0 <= i < j < results.len() ==> (#[trigger] results[i]).0 < (#[trigger] results[j]).0
}

/// The move of a position put its target in place.
pub open spec fn places(
    results: Seq<(u32, Result<ReassignOutcome, ShardError>)>,
    position: u32,
) -> bool {
    exists|i: int|
        0 <= i < results.len() && (#[trigger] results[i]).0 == position && verdict(
            results[i].1,
        ) is Placed
}

/// The move of a position failed.
pub open spec fn fails(
    results: Seq<(u32, Result<ReassignOutcome, ShardError>)>,
    position: u32,
) -> bool {
    exists|i: int|
        0 <= i < results.len() && (#[trigger] results[i]).0 == position && verdict(
            results[i].1,
        ) is Failed
}

/// The move of a position failed, with this message, and that of no lower position did.
pub open spec fn lowest_failure(
    results: Seq<(u32, Result<ReassignOutcome, ShardError>)>,
    position: u32,
    message: Seq<char>,
) -> bool {
    &&& exists|i: int|
        0 <= i < results.len() && (#[trigger] results[i]).0 == position && verdict(results[i].1)
            == Verdict::Failed(message)
    &&& forall|j: int|
        0 <= j < results.len() && verdict((#[trigger] results[j]).1) is Failed ==> position
            <= results[j].0
}

/// A wave that fails is reported by the lowest position that failed in it, where its results come
/// in the order of their positions.
pub proof fn lemma_lowest_failure(
    report: ReportView,
    results: Seq<(u32, Result<ReassignOutcome, ShardError>)>,
)
    requires
        report.failed is None,
        positions_increase(results),
    ensures
        match with_wave(report, results).failed {
            Some((position, message)) => lowest_failure(results, position, message),
            None => !wave_failed(results),
        },
    decreases results.len(),
{
    if results.len() > 0 {
        let before = results.drop_last();
        let k = results.len() - 1;
        assert forall|i: int, j: int| 0 <= i < j < before.len() implies (#[trigger] before[i]).0
            < (#[trigger] before[j]).0 by {
            assert(results[i].0 < results[j].0);
        }
        lemma_lowest_failure(report, before);
        assert(results.take(k) =~= before);
        assert(results.take(k + 1) =~= results);
        lemma_wave_failed(results, k);
        match with_wave(report, before).failed {
            Some((position, message)) => {
                let i = choose|i: int|
                    0 <= i < before.len() && (#[trigger] before[i]).0 == position && verdict(
                        before[i].1,
                    ) == Verdict::Failed(message);
                assert(results[i] == before[i]);
                assert(results[i].0 < results[k].0);
                assert forall|j: int|
                    0 <= j < results.len() && verdict(
                        (#[trigger] results[j]).1,
                    ) is Failed implies position <= results[j].0 by {
                    if j < k {
                        assert(before[j] == results[j]);
                    }
                }
            },
            None => {
                assert forall|j: int|
                    0 <= j < results.len() && verdict(
                        (#[trigger] results[j]).1,
                    ) is Failed implies results[k].0 <= results[j].0 by {
                    if j < k {
                        assert(before[j] == results[j]);
                    }
                }
            },
        }
    }
}

/// What a wave makes of a report without a failure.
proof fn lemma_wave_report(
    report: ReportView,
    results: Seq<(u32, Result<ReassignOutcome, ShardError>)>,
)
    requires
        report.failed is None,
        report.not_attempted.len() == 0,
        report.moved.no_duplicates(),
        positions_increase(results),
        forall|i: int| 0 <= i < results.len() ==> !report.moved.contains((#[trigger] results[i]).0),
    ensures
        ({
            let next = with_wave(report, results);
            &&& next.moved.no_duplicates()
            &&& next.not_attempted.no_duplicates()
            &&& forall|p: u32| #[trigger]
                next.moved.contains(p) <==> report.moved.contains(p) || places(results, p)
            &&& forall|p: u32| #[trigger]
                next.not_attempted.contains(p) <==> fails(results, p) && !(next.failed matches Some(
                    (named, _),
                ) && named == p)
            &&& next.failed matches Some((named, _)) ==> fails(results, named)
        }),
    decreases results.len(),
{
    let next = with_wave(report, results);
    if results.len() > 0 {
        let before = results.drop_last();
        let k = results.len() - 1;
        assert forall|i: int| 0 <= i < before.len() implies (#[trigger] before[i]) == results[i]
            && before[i].0 < results[k].0 && !report.moved.contains(before[i].0) by {
            assert(results[i].0 < results[k].0);
        }
        assert forall|i: int, j: int| 0 <= i < j < before.len() implies (#[trigger] before[i]).0
            < (#[trigger] before[j]).0 by {
            assert(results[i].0 < results[j].0);
        }
        lemma_wave_report(report, before);
        let rest = with_wave(report, before);
        let position = results[k].0;
        assert(!places(before, position) && !fails(before, position));
        assert(!rest.moved.contains(position));
        assert(!rest.not_attempted.contains(position));
        assert forall|p: u32| places(results, p) <==> places(before, p) || (p == position
            && verdict(results[k].1) is Placed) by {
            lemma_one_more(results, p);
        }
        assert forall|p: u32| fails(results, p) <==> fails(before, p) || (p == position && verdict(
            results[k].1,
        ) is Failed) by {
            lemma_one_more(results, p);
        }
        assert forall|p: u32| #[trigger] next.moved.contains(p) <==> report.moved.contains(p)
            || places(results, p) by {
            assert(places(results, p) <==> places(before, p) || (p == position && verdict(
                results[k].1,
            ) is Placed));
            lemma_pushed(rest.moved, position, p);
        }
        assert forall|p: u32| #[trigger] next.not_attempted.contains(p) <==> fails(results, p) && !(
        next.failed matches Some((named, _)) && named == p) by {
            assert(fails(results, p) <==> fails(before, p) || (p == position && verdict(
                results[k].1,
            ) is Failed));
            lemma_pushed(rest.not_attempted, position, p);
            if rest.failed is None {
                assert(!fails(before, p)) by {
                    if fails(before, p) {
                        assert(rest.not_attempted.contains(p));
                        lemma_wave_consistent(report, before);
                    }
                }
            }
        }
        if next.failed is Some {
            let named = (next.failed->0).0;
            assert(fails(results, named) <==> fails(before, named) || (named == position
                && verdict(results[k].1) is Failed));
        }
    }
}

proof fn lemma_pushed(s: Seq<u32>, v: u32, p: u32)
    ensures
        s.push(v).contains(p) <==> s.contains(p) || p == v,
{
    let next = s.push(v);
    if s.contains(p) {
        let i = choose|i: int| 0 <= i < s.len() && s[i] == p;
        assert(next[i] == p);
    }
    assert(next[s.len() as int] == v);
}

proof fn lemma_one_more(results: Seq<(u32, Result<ReassignOutcome, ShardError>)>, p: u32)
    requires
        results.len() > 0,
    ensures
        places(results, p) <==> places(results.drop_last(), p) || (p == results.last().0
            && verdict(results.last().1) is Placed),
        fails(results, p) <==> fails(results.drop_last(), p) || (p == results.last().0 && verdict(
            results.last().1,
        ) is Failed),
{
    let before = results.drop_last();
    let k = results.len() - 1;
    if places(before, p) {
        let i = choose|i: int|
            0 <= i < before.len() && (#[trigger] before[i]).0 == p && verdict(
                before[i].1,
            ) is Placed;
        assert(results[i] == before[i]);
    }
    if fails(before, p) {
        let i = choose|i: int|
            0 <= i < before.len() && (#[trigger] before[i]).0 == p && verdict(
                before[i].1,
            ) is Failed;
        assert(results[i] == before[i]);
    }
    if places(results, p) {
        let i = choose|i: int|
            0 <= i < results.len() && (#[trigger] results[i]).0 == p && verdict(
                results[i].1,
            ) is Placed;
        if i < k {
            assert(before[i] == results[i]);
        }
    }
    if fails(results, p) {
        let i = choose|i: int|
            0 <= i < results.len() && (#[trigger] results[i]).0 == p && verdict(
                results[i].1,
            ) is Failed;
        if i < k {
            assert(before[i] == results[i]);
        }
    }
    assert(results[k] == results.last());
}

/// The results are those of a wave: of its positions, in their order.
pub open spec fn results_of(
    results: Seq<(u32, Result<ReassignOutcome, ShardError>)>,
    wave: Seq<u32>,
) -> bool {
    &&& positions_increase(results)
    &&& forall|i: int| 0 <= i < results.len() ==> wave.contains((#[trigger] results[i]).0)
}

/// A position is in one of the waves from `from` up to `to`.
pub open spec fn in_waves(waves: Seq<Seq<u32>>, from: int, to: int, position: u32) -> bool {
    exists|w: int| from <= w < to && (#[trigger] waves[w]).contains(position)
}

/// No position comes twice, in one wave or in two.
pub open spec fn waves_distinct(waves: Seq<Seq<u32>>) -> bool {
    &&& forall|w: int| 0 <= w < waves.len() ==> (#[trigger] waves[w]).no_duplicates()
    &&& forall|v: int, w: int, p: u32|
        0 <= v < w < waves.len() && #[trigger] waves[v].contains(p)
            ==> !#[trigger] waves[w].contains(p)
}

/// A sweep starts with its waves and takes the results of one after the other.
pub open spec fn swept(
    waves: Seq<Seq<u32>>,
    results: Seq<Seq<(u32, Result<ReassignOutcome, ShardError>)>>,
    states: Seq<RebalanceView>,
) -> bool {
    &&& states.len() == results.len() + 1
    &&& states[0] == started(waves)
    &&& forall|k: int|
        0 <= k < results.len() ==> {
            &&& (#[trigger] states[k]).at < states[k].waves.len()
            &&& results_of(#[trigger] results[k], states[k].waves[states[k].at as int])
            &&& states[k + 1] == absorbed(states[k], results[k])
        }
}

/// Some position was put in place by one of the first `n` waves.
pub open spec fn placed_by(
    results: Seq<Seq<(u32, Result<ReassignOutcome, ShardError>)>>,
    n: int,
    position: u32,
) -> bool {
    exists|k: int| 0 <= k < n && places(#[trigger] results[k], position)
}

/// After `n` waves without a failure.
spec fn running(
    waves: Seq<Seq<u32>>,
    results: Seq<Seq<(u32, Result<ReassignOutcome, ShardError>)>>,
    n: int,
    state: RebalanceView,
) -> bool {
    &&& state.waves == waves
    &&& state.at == n
    &&& state.report.failed is None
    &&& state.report.not_attempted.len() == 0
    &&& state.report.moved.no_duplicates()
    &&& forall|p: u32| #[trigger] state.report.moved.contains(p) <==> placed_by(results, n, p)
    &&& forall|k: int| 0 <= k < n ==> !wave_failed(#[trigger] results[k])
    &&& forall|k: int| 0 <= k < n ==> results_of(#[trigger] results[k], waves[k])
}

proof fn lemma_running(
    waves: Seq<Seq<u32>>,
    results: Seq<Seq<(u32, Result<ReassignOutcome, ShardError>)>>,
    states: Seq<RebalanceView>,
    n: int,
)
    requires
        waves_distinct(waves),
        swept(waves, results, states),
        0 <= n <= results.len(),
        n < results.len() || n == 0 || !wave_failed(results[n - 1]),
    ensures
        running(waves, results, n, states[n]),
    decreases n,
{
    if n == 0 {
        assert(states[0].report.moved =~= Seq::<u32>::empty());
    } else {
        let m = n - 1;
        lemma_running(waves, results, states, m);
        let before = states[m];
        let now = results[m];
        assert(states[m].at < states[m].waves.len());
        assert(states[m + 1] == absorbed(before, now));
        assert(!wave_failed(now)) by {
            if wave_failed(now) {
                assert(results_of(results[n], states[n].waves[states[n].at as int]));
            }
        }
        lemma_wave_fresh(waves, results, before, m);
        lemma_wave_report(before.report, now);
        lemma_wave_consistent(before.report, now);
        let after = states[n].report;
        assert(after.not_attempted.len() == 0);
        assert forall|p: u32| #[trigger] after.moved.contains(p) <==> placed_by(results, n, p) by {
            assert(after.moved.contains(p) <==> before.report.moved.contains(p) || places(now, p));
            assert(before.report.moved.contains(p) <==> placed_by(results, m, p));
            lemma_placed_next(results, m, p);
        }
    }
}

proof fn lemma_placed_next(
    results: Seq<Seq<(u32, Result<ReassignOutcome, ShardError>)>>,
    m: int,
    p: u32,
)
    requires
        0 <= m < results.len(),
    ensures
        placed_by(results, m + 1, p) <==> placed_by(results, m, p) || places(results[m], p),
{
    if placed_by(results, m, p) {
        let k = choose|k: int| 0 <= k < m && places(#[trigger] results[k], p);
        assert(0 <= k < m + 1 && places(results[k], p));
    }
}

/// What was put in place so far is in none of the later waves.
proof fn lemma_wave_fresh(
    waves: Seq<Seq<u32>>,
    results: Seq<Seq<(u32, Result<ReassignOutcome, ShardError>)>>,
    state: RebalanceView,
    n: int,
)
    requires
        waves_distinct(waves),
        0 <= n < results.len(),
        n < waves.len(),
        running(waves, results, n, state),
        results_of(results[n], waves[n]),
    ensures
        forall|i: int|
            0 <= i < results[n].len() ==> !state.report.moved.contains(
                (#[trigger] results[n][i]).0,
            ),
{
    assert forall|i: int| 0 <= i < results[n].len() implies !state.report.moved.contains(
        (#[trigger] results[n][i]).0,
    ) by {
        let p = results[n][i].0;
        if state.report.moved.contains(p) {
            let k = choose|k: int| 0 <= k < n && places(#[trigger] results[k], p);
            lemma_result_in_wave(results[k], waves[k], p);
            assert(waves[n].contains(p));
        }
    }
}

proof fn lemma_result_in_wave(
    results: Seq<(u32, Result<ReassignOutcome, ShardError>)>,
    wave: Seq<u32>,
    p: u32,
)
    requires
        results_of(results, wave),
    ensures
        places(results, p) || fails(results, p) ==> wave.contains(p),
        !(places(results, p) && fails(results, p)),
{
    if places(results, p) {
        let i = choose|i: int|
            0 <= i < results.len() && (#[trigger] results[i]).0 == p && verdict(
                results[i].1,
            ) is Placed;
        if fails(results, p) {
            let j = choose|j: int|
                0 <= j < results.len() && (#[trigger] results[j]).0 == p && verdict(
                    results[j].1,
                ) is Failed;
            if i < j {
                assert(results[i].0 < results[j].0);
            } else if j < i {
                assert(results[j].0 < results[i].0);
            }
        }
    }
}

/// What the waves from `from` on leave: their positions, each once.
proof fn lemma_left(waves: Seq<Seq<u32>>, from: nat)
    requires
        waves_distinct(waves),
    ensures
        positions_from(waves, from).no_duplicates(),
        forall|p: u32| #[trigger]
            positions_from(waves, from).contains(p) <==> in_waves(
                waves,
                from as int,
                waves.len() as int,
                p,
            ),
    decreases waves.len() - from,
{
    let all = positions_from(waves, from);
    if from < waves.len() {
        let first = waves[from as int];
        let rest = positions_from(waves, from + 1);
        lemma_left(waves, from + 1);
        assert forall|p: u32| first.contains(p) implies !#[trigger] rest.contains(p) by {
            if rest.contains(p) {
                let w = choose|w: int|
                    from + 1 <= w < waves.len() && (#[trigger] waves[w]).contains(p);
                assert(waves[from as int].contains(p));
            }
        }
        lemma_joined(first, rest);
        assert forall|p: u32| #[trigger] all.contains(p) <==> in_waves(
            waves,
            from as int,
            waves.len() as int,
            p,
        ) by {
            assert(all.contains(p) <==> first.contains(p) || rest.contains(p));
            if first.contains(p) {
                assert(waves[from as int].contains(p));
            }
            if rest.contains(p) {
                let w = choose|w: int|
                    from + 1 <= w < waves.len() && (#[trigger] waves[w]).contains(p);
                assert(from <= w < waves.len() && waves[w].contains(p));
            }
            if in_waves(waves, from as int, waves.len() as int, p) {
                let w = choose|w: int|
                    from <= w < waves.len() && (#[trigger] waves[w]).contains(p);
                if w > from {
                    assert(from + 1 <= w < waves.len() && waves[w].contains(p));
                    assert(in_waves(waves, (from + 1) as int, waves.len() as int, p));
                    assert(rest.contains(p));
                }
            }
        }
    }
}

proof fn lemma_joined(a: Seq<u32>, b: Seq<u32>)
    ensures
        forall|p: u32| #[trigger] (a + b).contains(p) <==> a.contains(p) || b.contains(p),
        a.no_duplicates() && b.no_duplicates() && (forall|p: u32|
            a.contains(p) ==> !#[trigger] b.contains(p)) ==> (a + b).no_duplicates(),
{
    let c = a + b;
    assert forall|p: u32| #[trigger] c.contains(p) <==> a.contains(p) || b.contains(p) by {
        if a.contains(p) {
            let i = choose|i: int| 0 <= i < a.len() && a[i] == p;
            assert(c[i] == p);
        }
        if b.contains(p) {
            let i = choose|i: int| 0 <= i < b.len() && b[i] == p;
            assert(c[a.len() + i] == p);
        }
        if c.contains(p) {
            let i = choose|i: int| 0 <= i < c.len() && c[i] == p;
            if i < a.len() {
                assert(a[i] == p);
            } else {
                assert(b[i - a.len()] == p);
            }
        }
    }
    if a.no_duplicates() && b.no_duplicates() && (forall|p: u32|
        a.contains(p) ==> !#[trigger] b.contains(p)) {
        assert forall|i: int, j: int| 0 <= i < c.len() && 0 <= j < c.len() && i != j implies c[i]
            != c[j] by {
            if i < a.len() && j >= a.len() {
                assert(a.contains(a[i]));
                assert(b.contains(b[j - a.len()]));
            }
            if j < a.len() && i >= a.len() {
                assert(a.contains(a[j]));
                assert(b.contains(b[i - a.len()]));
            }
        }
    }
}

/// What a report says of a sweep of `n` waves. Placed are the positions that some wave put in
/// place. Without a failure nothing is left. A failure is of the last wave that ran, and of the
/// lowest position that failed in it; left are the other failures of that wave, and all waves
/// after it.
pub open spec fn reports(
    report: ReportView,
    waves: Seq<Seq<u32>>,
    results: Seq<Seq<(u32, Result<ReassignOutcome, ShardError>)>>,
) -> bool {
    let n = results.len() as int;
    &&& forall|p: u32| #[trigger] report.moved.contains(p) <==> placed_by(results, n, p)
    &&& match report.failed {
        None => {
            &&& forall|k: int| 0 <= k < n ==> !wave_failed(#[trigger] results[k])
            &&& report.not_attempted.len() == 0
        },
        Some((position, message)) => {
            &&& n > 0
            &&& lowest_failure(results[n - 1], position, message)
            &&& forall|k: int| 0 <= k < n - 1 ==> !wave_failed(#[trigger] results[k])
            &&& forall|p: u32| #[trigger]
                report.not_attempted.contains(p) <==> (fails(results[n - 1], p) && p != position)
                    || in_waves(waves, n, waves.len() as int, p)
        },
    }
}

/// No position is named twice in a report.
pub open spec fn names_once(report: ReportView) -> bool {
    &&& report.moved.no_duplicates()
    &&& report.not_attempted.no_duplicates()
    &&& forall|p: u32| #[trigger]
        report.moved.contains(p) ==> !report.not_attempted.contains(p)
    &&& report.failed matches Some((position, _)) ==> !report.moved.contains(position)
        && !report.not_attempted.contains(position)
}

/// The report of a whole sweep, whose waves name no position twice and whose results come in
/// position order: it names the lowest position that failed; what moved, what failed and what is
/// left are disjoint, in increasing order, and drawn from the waves.
pub proof fn lemma_sweep_report(
    waves: Seq<Seq<u32>>,
    results: Seq<Seq<(u32, Result<ReassignOutcome, ShardError>)>>,
    states: Seq<RebalanceView>,
)
    requires
        waves_distinct(waves),
        swept(waves, results, states),
    ensures
        ({
            let report = finished(states.last().report);
            &&& reports(report, waves, results)
            &&& names_once(report)
            &&& forall|i: int, j: int|
                0 <= i < j < report.moved.len() ==> report.moved[i] < report.moved[j]
            &&& forall|i: int, j: int|
                0 <= i < j < report.not_attempted.len() ==> report.not_attempted[i]
                    < report.not_attempted[j]
            &&& forall|p: u32| #[trigger]
                accounted(report, p) ==> in_waves(waves, 0, waves.len() as int, p)
        }),
{
    let n = results.len() as int;
    let report = states[n].report;
    let done = finished(report);
    lemma_sweep_unsorted(waves, results, states);
    lemma_sorted_once(report.moved);
    lemma_sorted_once(report.not_attempted);
    assert(done.not_attempted.len() == report.not_attempted.len());
    assert forall|p: u32| #[trigger] done.moved.contains(p) <==> placed_by(results, n, p) by {
        assert(done.moved.contains(p) <==> report.moved.contains(p));
    }
    if done.failed is Some {
        assert forall|p: u32| #[trigger] done.not_attempted.contains(p) <==> (fails(
            results[n - 1],
            p,
        ) && p != (done.failed->0).0) || in_waves(waves, n, waves.len() as int, p) by {
            assert(done.not_attempted.contains(p) <==> report.not_attempted.contains(p));
        }
    }
    assert forall|p: u32| #[trigger] done.moved.contains(p) implies !done.not_attempted.contains(
        p,
    ) by {
        assert(report.moved.contains(p));
        assert(done.not_attempted.contains(p) <==> report.not_attempted.contains(p));
    }
    assert forall|p: u32| #[trigger] accounted(done, p) implies in_waves(
        waves,
        0,
        waves.len() as int,
        p,
    ) by {
        assert(done.moved.contains(p) <==> report.moved.contains(p));
        assert(done.not_attempted.contains(p) <==> report.not_attempted.contains(p));
        assert(accounted(report, p));
    }
}

/// Sorting positions that are all different makes them increase.
proof fn lemma_sorted_once(s: Seq<u32>)
    requires
        s.no_duplicates(),
    ensures
        sorted_by_key::<u32>(s).no_duplicates(),
        sorted_by_key::<u32>(s).len() == s.len(),
        forall|p: u32| #[trigger] sorted_by_key::<u32>(s).contains(p) <==> s.contains(p),
        forall|i: int, j: int|
            0 <= i < j < s.len() ==> sorted_by_key::<u32>(s)[i] < sorted_by_key::<u32>(s)[j],
{
    let sorted = sorted_by_key::<u32>(s);
    lemma_sorted::<u32>(s);
    lemma_sorted_distinct::<u32>(s);
    vstd::seq_lib::to_multiset_len(s);
    vstd::seq_lib::to_multiset_len(sorted);
    assert forall|i: int, j: int| 0 <= i < j < sorted.len() implies sorted[i] < sorted[j] by {
        assert(u32::key_of(sorted[i]) < u32::key_of(sorted[j]));
    }
}

proof fn lemma_sweep_unsorted(
    waves: Seq<Seq<u32>>,
    results: Seq<Seq<(u32, Result<ReassignOutcome, ShardError>)>>,
    states: Seq<RebalanceView>,
)
    requires
        waves_distinct(waves),
        swept(waves, results, states),
    ensures
        ({
            let report = states.last().report;
            &&& reports(report, waves, results)
            &&& names_once(report)
            &&& forall|p: u32| #[trigger]
                accounted(report, p) ==> in_waves(waves, 0, waves.len() as int, p)
        }),
{
    let n = results.len() as int;
    let report = states[n].report;
    if n > 0 && wave_failed(results[n - 1]) {
        let m = n - 1;
        lemma_running(waves, results, states, m);
        let before = states[m];
        let now = results[m];
        assert(states[m].at < states[m].waves.len());
        assert(states[m + 1] == absorbed(before, now));
        lemma_wave_fresh(waves, results, before, m);
        lemma_wave_report(before.report, now);
        lemma_lowest_failure(before.report, now);
        let next = with_wave(before.report, now);
        let left = positions_from(waves, n as nat);
        let named = (report.failed->0).0;
        lemma_left(waves, n as nat);
        assert forall|p: u32| next.not_attempted.contains(p) implies !#[trigger] left.contains(
            p,
        ) by {
            if left.contains(p) {
                lemma_result_in_wave(now, waves[m], p);
                let w = choose|w: int| n <= w < waves.len() && (#[trigger] waves[w]).contains(p);
                assert(waves[m].contains(p));
            }
        }
        lemma_joined(next.not_attempted, left);
        assert forall|p: u32| #[trigger] report.not_attempted.contains(p) <==> (fails(now, p) && p
            != named) || in_waves(waves, n, waves.len() as int, p) by {
            assert(report.not_attempted.contains(p) <==> next.not_attempted.contains(p)
                || left.contains(p));
        }
        assert forall|p: u32| #[trigger] report.moved.contains(p) <==> placed_by(
            results,
            n,
            p,
        ) by {
            assert(next.moved.contains(p) <==> before.report.moved.contains(p) || places(now, p));
            assert(before.report.moved.contains(p) <==> placed_by(results, m, p));
            lemma_placed_next(results, m, p);
        }
        assert(fails(now, named));
        assert forall|k: int| 0 <= k < n implies results_of(#[trigger] results[k], waves[k]) by {}
    } else {
        lemma_running(waves, results, states, n);
    }
    assert forall|p: u32| #[trigger] report.moved.contains(p) implies {
        &&& !report.not_attempted.contains(p)
        &&& !(report.failed matches Some((named, _)) && named == p)
        &&& in_waves(waves, 0, waves.len() as int, p)
    } by {
        let k = choose|k: int| 0 <= k < n && places(#[trigger] results[k], p);
        assert(states[k].at < states[k].waves.len());
        lemma_running(waves, results, states, k);
        lemma_result_in_wave(results[k], waves[k], p);
        assert(waves[k].contains(p));
        if report.failed is Some {
            lemma_running(waves, results, states, n - 1);
            assert(states[n - 1].at < states[n - 1].waves.len());
            lemma_result_in_wave(results[n - 1], waves[n - 1], p);
            if report.not_attempted.contains(p) && !fails(results[n - 1], p) {
                let w = choose|w: int| n <= w < waves.len() && (#[trigger] waves[w]).contains(p);
                assert(waves[k].contains(p));
            }
        }
    }
    if report.failed is Some {
        let named = (report.failed->0).0;
        lemma_running(waves, results, states, n - 1);
        assert(states[n - 1].at < states[n - 1].waves.len());
        lemma_result_in_wave(results[n - 1], waves[n - 1], named);
        assert(waves[n - 1].contains(named));
        assert forall|p: u32| #[trigger] report.not_attempted.contains(p) implies in_waves(
            waves,
            0,
            waves.len() as int,
            p,
        ) && p != named by {
            lemma_result_in_wave(results[n - 1], waves[n - 1], p);
            if fails(results[n - 1], p) && p != named {
                assert(waves[n - 1].contains(p));
            } else {
                let w = choose|w: int| n <= w < waves.len() && (#[trigger] waves[w]).contains(p);
                assert(0 <= w < waves.len() && waves[w].contains(p));
                assert(w > n - 1);
            }
        }
    }
}

/// A sweep starts with its first wave, and with nothing to report.
pub proof fn lemma_started(waves: Seq<Seq<u32>>)
    ensures
        started(waves).waves == waves,
        started(waves).at == 0,
        started(waves).report.moved.len() == 0,
        started(waves).report.failed is None,
        started(waves).report.not_attempted.len() == 0,
{
}

} // verus!
