//! The sweep of a data-moving rebalance: waves of moves, run one after the other, that stop
//! after the first wave with a failure. What moved is consistent, so a partial sweep can be
//! resumed.

use vstd::prelude::*;

use crate::document::ClusterState;
use crate::error::{ControlFault, ShardError};
use crate::keyed::{sort_by_key, sorted_by_key, views};
use crate::reassign::ReassignOutcome;

verus! {

/// What a sweep came to.
#[derive(Debug, PartialEq, Eq)]
pub struct RebalanceMoveReport {
    /// Positions whose target was committed, by a move or because it was already live.
    pub moved: Vec<u32>,
    /// The failure of the lowest position in the failing wave, with its message: the first one
    /// reported, where the results of a wave come in position order.
    pub failed: Option<(u32, String)>,
    /// Positions left for another sweep: further failures of the failing wave, and everything
    /// after it.
    pub not_attempted: Vec<u32>,
}

/// The view of `RebalanceMoveReport`.
#[verifier::ext_equal]
pub struct ReportView {
    pub moved: Seq<u32>,
    pub failed: Option<(u32, Seq<char>)>,
    pub not_attempted: Seq<u32>,
}

impl View for RebalanceMoveReport {
    type V = ReportView;

    open spec fn view(&self) -> ReportView {
        ReportView {
            moved: self.moved@,
            failed: match self.failed {
                Some((position, message)) => Some((position, message@)),
                None => None,
            },
            not_attempted: self.not_attempted@,
        }
    }
}

impl Clone for RebalanceMoveReport {
    fn clone(&self) -> (r: Self)
        ensures
            r@ == self@,
    {
        let moved = self.moved.clone();
        assert(moved@ =~= self.moved@);
        let failed = match &self.failed {
            Some((position, message)) => Some((*position, message.clone())),
            None => None,
        };
        let not_attempted = self.not_attempted.clone();
        assert(not_attempted@ =~= self.not_attempted@);
        RebalanceMoveReport { moved, failed, not_attempted }
    }
}

/// The report before any move.
pub open spec fn empty_report() -> ReportView {
    ReportView { moved: Seq::empty(), failed: None, not_attempted: Seq::empty() }
}

impl Default for RebalanceMoveReport {
    fn default() -> (r: Self)
        ensures
            r@ == empty_report(),
    {
        let r = RebalanceMoveReport { moved: Vec::new(), failed: None, not_attempted: Vec::new() };
        assert(r@ =~= empty_report());
        r
    }
}

/// What one move means for the sweep.
pub enum Verdict {
    /// The target is committed.
    Placed,
    /// Someone else had placed it.
    Unchanged,
    /// It failed, with this message.
    Failed(Seq<char>),
}

/// The message about data that moved without its commit.
pub open spec fn not_committed_text() -> Seq<char> {
    "data moved but committing the new owner failed (see the emitted event); stopped the rebalance so the durable map stays reconcilable — re-run to resume"@
}

/// What the outcome of a move means for the sweep.
pub open spec fn verdict(outcome: Result<ReassignOutcome, ShardError>) -> Verdict {
    match outcome {
        Ok(ReassignOutcome::Moved { .. }) => Verdict::Placed,
        Ok(ReassignOutcome::Reconciled { .. }) => Verdict::Placed,
        Ok(ReassignOutcome::NoChange { .. }) => Verdict::Unchanged,
        Ok(ReassignOutcome::MovedButNotCommitted { .. }) => Verdict::Failed(not_committed_text()),
        Err(e) => Verdict::Failed(e.text()),
    }
}

/// The report after one more move of a wave.
pub open spec fn with_move(report: ReportView, position: u32, v: Verdict) -> ReportView {
    match v {
        Verdict::Placed => ReportView { moved: report.moved.push(position), ..report },
        Verdict::Unchanged => report,
        Verdict::Failed(message) => if report.failed is None {
            ReportView { failed: Some((position, message)), ..report }
        } else {
            ReportView { not_attempted: report.not_attempted.push(position), ..report }
        },
    }
}

/// The report after the moves of a wave.
pub open spec fn with_wave(
    report: ReportView,
    results: Seq<(u32, Result<ReassignOutcome, ShardError>)>,
) -> ReportView
    decreases results.len(),
{
    if results.len() == 0 {
        report
    } else {
        with_move(
            with_wave(report, results.drop_last()),
            results.last().0,
            verdict(results.last().1),
        )
    }
}

/// Some move of the wave failed.
pub open spec fn wave_failed(results: Seq<(u32, Result<ReassignOutcome, ShardError>)>) -> bool {
    exists|i: int| 0 <= i < results.len() && verdict((#[trigger] results[i]).1) is Failed
}

/// The positions of the waves from index `from` on, in order.
pub open spec fn positions_from(waves: Seq<Seq<u32>>, from: nat) -> Seq<u32>
    decreases waves.len() - from,
{
    if from >= waves.len() {
        Seq::empty()
    } else {
        waves[from as int] + positions_from(waves, from + 1)
    }
}

/// The view of `RebalanceSweep`.
#[verifier::ext_equal]
pub struct RebalanceView {
    pub waves: Seq<Seq<u32>>,
    /// The wave to run next.
    pub at: nat,
    pub report: ReportView,
}

/// A sweep before its first wave.
pub open spec fn started(waves: Seq<Seq<u32>>) -> RebalanceView {
    RebalanceView { waves, at: 0, report: empty_report() }
}

/// The sweep after the results of its current wave. A failure ends it, and leaves the later waves
/// for another sweep.
pub open spec fn absorbed(
    before: RebalanceView,
    results: Seq<(u32, Result<ReassignOutcome, ShardError>)>,
) -> RebalanceView {
    let report = with_wave(before.report, results);
    if wave_failed(results) {
        RebalanceView {
            at: before.waves.len(),
            report: ReportView {
                not_attempted: report.not_attempted + positions_from(before.waves, before.at + 1),
                ..report
            },
            ..before
        }
    } else {
        RebalanceView { at: before.at + 1, report, ..before }
    }
}

/// The report in increasing order.
pub open spec fn finished(report: ReportView) -> ReportView {
    ReportView {
        moved: sorted_by_key::<u32>(report.moved),
        failed: report.failed,
        not_attempted: sorted_by_key::<u32>(report.not_attempted),
    }
}

/// A rebalance under way.
pub struct RebalanceSweep {
    waves: Vec<Vec<u32>>,
    at: usize,
    report: RebalanceMoveReport,
}

impl View for RebalanceSweep {
    type V = RebalanceView;

    closed spec fn view(&self) -> RebalanceView {
        RebalanceView { waves: views(self.waves@), at: self.at as nat, report: self.report@ }
    }
}

/// Whether there are nodes to place shards on at all.
pub fn rebalance_preflight(state: &ClusterState) -> (r: Result<(), ShardError>)
    ensures
        r == if state@.nodes.len() == 0 {
            Err::<(), ShardError>(ShardError::ControlPlane(ControlFault::NoNodes))
        } else {
            Ok::<(), ShardError>(())
        },
{
    if state.nodes.len() == 0 {
        Err(ShardError::ControlPlane(ControlFault::NoNodes))
    } else {
        Ok(())
    }
}

impl RebalanceSweep {
    /// A sweep of waves of positions, to be run in order.
    pub fn rebalance_and_move_with(waves: Vec<Vec<u32>>) -> (r: Self)
        ensures
            r@ == started(views(waves@)),
    {
        RebalanceSweep { waves, at: 0, report: RebalanceMoveReport::default() }
    }

    /// The positions to move next; `None` at the end.
    pub fn current(&self) -> (r: Option<&Vec<u32>>)
        ensures
            match r {
                Some(wave) => self@.at < self@.waves.len() && wave@ == self@.waves[self@.at as int],
                None => self@.at >= self@.waves.len(),
            },
    {
        if self.at < self.waves.len() {
            Some(&self.waves[self.at])
        } else {
            None
        }
    }

    /// Takes the results of the current wave, in the order in which they are reported, which is
    /// that of their positions. After a failure nothing more is run, and the later waves are left
    /// for another sweep.
    pub fn absorb(&mut self, results: Vec<(u32, Result<ReassignOutcome, ShardError>)>)
        requires
            old(self)@.at < old(self)@.waves.len(),
        ensures
            final(self)@ == absorbed(old(self)@, results@),
    {
        let ghost report0 = self.report@;
        let ghost all = results@;
        let mut failed: bool = false;
        assert(all.take(0) =~= Seq::<(u32, Result<ReassignOutcome, ShardError>)>::empty());
        for result in it: results
            invariant
                it.seq() == all,
                self.waves@ == old(self).waves@,
                self.at == old(self).at,
                report0 == old(self).report@,
                self.report@ == with_wave(report0, all.take(it.index())),
                failed == wave_failed(all.take(it.index())),
        {
            let ghost k = it.index();
            let ghost done = all.take(k);
            proof {
                assert(all.take(k + 1).drop_last() =~= done);
                assert(all.take(k + 1).last() == all[k]);
                lemma_wave_failed(all, k);
            }
            let position: u32 = result.0;
            match result.1 {
                Ok(ReassignOutcome::Moved { .. }) => {
                    self.report.moved.push(position);
                },
                Ok(ReassignOutcome::Reconciled { .. }) => {
                    self.report.moved.push(position);
                },
                Ok(ReassignOutcome::NoChange { .. }) => {},
                Ok(ReassignOutcome::MovedButNotCommitted { .. }) => {
                    failed = true;
                    self.note_failure(
                        position,
                        "data moved but committing the new owner failed (see the emitted event); stopped the rebalance so the durable map stays reconcilable — re-run to resume".to_owned(),
                    );
                },
                Err(e) => {
                    failed = true;
                    let message = e.message();
                    self.note_failure(position, message);
                },
            }
        }
        assert(all.take(all.len() as int) =~= all);
        let total: usize = self.waves.len();
        if failed {
            self.leave_rest();
            self.at = total;
        } else {
            self.at = self.at + 1;
        }
    }

    fn note_failure(&mut self, position: u32, message: String)
        ensures
            final(self).waves == old(self).waves,
            final(self).at == old(self).at,
            final(self).report@ == with_move(
                old(self).report@,
                position,
                Verdict::Failed(message@),
            ),
    {
        if self.report.failed.is_none() {
            self.report.failed = Some((position, message));
        } else {
            self.report.not_attempted.push(position);
        }
    }

    /// Leaves the waves after the current one for another sweep.
    fn leave_rest(&mut self)
        requires
            old(self).at < old(self).waves.len(),
        ensures
            final(self).waves == old(self).waves,
            final(self).at == old(self).at,
            final(self).report@ == (ReportView {
                not_attempted: old(self).report@.not_attempted + positions_from(
                    views(old(self).waves@),
                    (old(self).at + 1) as nat,
                ),
                ..old(self).report@
            }),
    {
        let ghost waves = views(self.waves@);
        let ghost before = self.report@;
        let mut w: usize = self.at + 1;
        let ghost first = w as nat;
        proof {
            assert(before.not_attempted + Seq::<u32>::empty() =~= before.not_attempted);
            lemma_positions_from(waves, first, first);
        }
        while w < self.waves.len()
            invariant
                first <= w <= self.waves.len(),
                self.waves == old(self).waves,
                self.at == old(self).at,
                waves == views(self.waves@),
                before == old(self).report@,
                self.report@ == (ReportView {
                    not_attempted: before.not_attempted + positions_between(
                        waves,
                        first,
                        w as nat,
                    ),
                    ..before
                }),
            decreases self.waves.len() - w,
        {
            let ghost so_far = self.report@.not_attempted;
            let mut i: usize = 0;
            assert(so_far + self.waves@[w as int]@.take(0) =~= so_far);
            while i < self.waves[w].len()
                invariant
                    w < self.waves.len(),
                    i <= self.waves@[w as int].len(),
                    self.waves == old(self).waves,
                    self.at == old(self).at,
                    self.report@ == (ReportView {
                        not_attempted: so_far + self.waves@[w as int]@.take(i as int),
                        ..before
                    }),
                decreases self.waves@[w as int].len() - i,
            {
                let position: u32 = self.waves[w][i];
                self.report.not_attempted.push(position);
                i = i + 1;
                assert(self.report@.not_attempted =~= so_far + self.waves@[w as int]@.take(
                    i as int,
                ));
            }
            proof {
                assert(self.waves@[w as int]@.take(i as int) =~= waves[w as int]);
                lemma_positions_between(waves, first, w as nat);
                assert(before.not_attempted + positions_between(waves, first, w as nat)
                    + waves[w as int] =~= before.not_attempted + (positions_between(
                    waves,
                    first,
                    w as nat,
                ) + waves[w as int]));
            }
            w = w + 1;
        }
        proof {
            lemma_positions_from(waves, first, w as nat);
        }
    }

    /// The report: positions in increasing order, whatever order they were run in.
    pub fn finish(self) -> (r: RebalanceMoveReport)
        ensures
            r@ == finished(self@.report),
    {
        let report = self.report;
        assert(views(report.moved@) =~= report.moved@);
        assert(views(report.not_attempted@) =~= report.not_attempted@);
        let moved = sort_by_key(report.moved);
        let not_attempted = sort_by_key(report.not_attempted);
        assert(views(moved@) =~= moved@);
        assert(views(not_attempted@) =~= not_attempted@);
        RebalanceMoveReport { moved, failed: report.failed, not_attempted }
    }
}

/// The positions of the waves from `from` up to `to`.
spec fn positions_between(waves: Seq<Seq<u32>>, from: nat, to: nat) -> Seq<u32>
    decreases to,
{
    if to <= from {
        Seq::empty()
    } else {
        positions_between(waves, from, (to - 1) as nat) + waves[to - 1]
    }
}

proof fn lemma_positions_between(waves: Seq<Seq<u32>>, from: nat, to: nat)
    requires
        from <= to < waves.len(),
    ensures
        positions_between(waves, from, to + 1) == positions_between(waves, from, to)
            + waves[to as int],
{
}

/// Reading the waves forward or backward gives the same positions.
proof fn lemma_positions_from(waves: Seq<Seq<u32>>, from: nat, to: nat)
    requires
        from <= to,
        to <= waves.len() || to == from,
    ensures
        positions_from(waves, from) == positions_between(waves, from, to) + positions_from(
            waves,
            to,
        ),
    decreases to,
{
    if to == from {
        assert(Seq::<u32>::empty() + positions_from(waves, to) =~= positions_from(waves, to));
    } else {
        let last = (to - 1) as nat;
        lemma_positions_from(waves, from, last);
        assert(positions_from(waves, last) == waves[last as int] + positions_from(waves, to));
        assert(positions_between(waves, from, last) + (waves[last as int] + positions_from(
            waves,
            to,
        )) =~= (positions_between(waves, from, last) + waves[last as int]) + positions_from(
            waves,
            to,
        ));
    }
    if to >= waves.len() {
        assert(positions_from(waves, to) =~= Seq::<u32>::empty());
        assert(positions_between(waves, from, to) + Seq::<u32>::empty() =~= positions_between(
            waves,
            from,
            to,
        ));
    }
}

/// A wave has failed once one of its moves has.
pub proof fn lemma_wave_failed(all: Seq<(u32, Result<ReassignOutcome, ShardError>)>, k: int)
    requires
        0 <= k < all.len(),
    ensures
        wave_failed(all.take(k + 1)) == (wave_failed(all.take(k)) || verdict(all[k].1) is Failed),
{
    let now = all.take(k);
    let next = all.take(k + 1);
    if wave_failed(now) {
        let i = choose|i: int| 0 <= i < now.len() && verdict((#[trigger] now[i]).1) is Failed;
        assert(next[i] == now[i]);
    }
    if verdict(all[k].1) is Failed {
        assert(next[k] == all[k]);
    }
    if wave_failed(next) {
        let i = choose|i: int| 0 <= i < next.len() && verdict((#[trigger] next[i]).1) is Failed;
        if i < k {
            assert(now[i] == next[i]);
        }
    }
}

} // verus!
