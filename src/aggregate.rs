//! Accounting of the partial results that workers send back, so that a run
//! ends in a clear outcome instead of a silently wrong total or a hang.
use vstd::prelude::*;

verus! {

/// What the aggregator takes off the result channel next.
#[derive(Clone, Copy, Debug, PartialEq, Eq, Structural)]
pub enum Report {
    /// A worker's partial result arrived; the caller adds its value to the total.
    Partial,
    /// A worker ended without producing its partial result.
    Failed,
    /// Every sender is gone and no message is left buffered.
    Closed,
}

/// Why a run has no total.
#[derive(Clone, Copy, Debug, PartialEq, Eq, Structural)]
pub enum AggregateError {
    /// A worker reported that it failed.
    WorkerFailed,
    /// The channel closed before every expected partial result arrived.
    Missing { expected: usize, received: usize },
    /// More partial results arrived than chunks were dispatched.
    Surplus { expected: usize },
}

/// What the aggregator does after a report.
#[derive(Clone, Copy, Debug, PartialEq, Eq, Structural)]
pub enum Step {
    /// Keep draining the channel.
    Continue,
    /// All partial results are in and the channel is closed: the total is final.
    Finish,
    /// The run failed.
    Abort(AggregateError),
}

/// One report handled by an aggregator that expects `expected` partial results
/// and has `received` of them: the new count and the step to take.
pub open spec fn spec_step(expected: nat, received: nat, report: Report) -> (nat, Step) {
    match report {
        Report::Partial => {
            if received < expected {
                (received + 1, Step::Continue)
            } else {
                (received, Step::Abort(AggregateError::Surplus { expected: expected as usize }))
            }
        },
        Report::Failed => (received, Step::Abort(AggregateError::WorkerFailed)),
        Report::Closed => {
            if received == expected {
                (received, Step::Finish)
            } else {
                (
                    received,
                    Step::Abort(
                        AggregateError::Missing {
                            expected: expected as usize,
                            received: received as usize,
                        },
                    ),
                )
            }
        },
    }
}

/// The first step other than `Continue` when `reports` are handled in order,
/// or `Continue` when there is none.
pub open spec fn spec_drain(expected: nat, received: nat, reports: Seq<Report>) -> Step
    decreases reports.len(),
{
    if reports.len() == 0 {
        Step::Continue
    } else {
        let (next, step) = spec_step(expected, received, reports[0]);
        if step == Step::Continue {
            spec_drain(expected, next, reports.drop_first())
        } else {
            step
        }
    }
}

/// `k` partial results followed by the channel's closing.
pub open spec fn complete_reports(k: nat) -> Seq<Report> {
    Seq::new(k, |i: int| Report::Partial).push(Report::Closed)
}

/// Counts partial results against the number of chunks dispatched.
pub struct Tally {
    expected: usize,
    received: usize,
}

impl Tally {
    /// Number of partial results expected.
    pub closed spec fn spec_expected(self) -> nat {
        self.expected as nat
    }

    /// Number of partial results received so far.
    pub closed spec fn spec_received(self) -> nat {
        self.received as nat
    }

    pub open spec fn wf(self) -> bool {
        self.spec_received() <= self.spec_expected()
    }

    /// An aggregator waiting for `expected` partial results, none received yet.
    pub fn new(expected: usize) -> (t: Tally)
        ensures
            t.wf(),
            t.spec_expected() == expected,
            t.spec_received() == 0,
    {
        Tally { expected, received: 0 }
    }

    pub fn expected(&self) -> (r: usize)
        ensures
            r == self.spec_expected(),
    {
        self.expected
    }

    pub fn received(&self) -> (r: usize)
        ensures
            r == self.spec_received(),
    {
        self.received
    }

    /// Handles one report from the channel.
    pub fn record(&mut self, report: Report) -> (s: Step)
        requires
            old(self).wf(),
        ensures
            final(self).wf(),
            final(self).spec_expected() == old(self).spec_expected(),
            (final(self).spec_received(), s) == spec_step(
                old(self).spec_expected(),
                old(self).spec_received(),
                report,
            ),
    {
        match report {
            Report::Partial => {
                if self.received < self.expected {
                    self.received = self.received + 1;
                    Step::Continue
                } else {
                    Step::Abort(AggregateError::Surplus { expected: self.expected })
                }
            },
            Report::Failed => Step::Abort(AggregateError::WorkerFailed),
            Report::Closed => {
                if self.received == self.expected {
                    Step::Finish
                } else {
                    Step::Abort(
                        AggregateError::Missing { expected: self.expected, received: self.received },
                    )
                }
            },
        }
    }
}

/// A run in which every one of the `expected` partial results arrives before
/// the channel closes finishes; with nothing expected, closing alone finishes.
pub proof fn lemma_complete_run_finishes(expected: nat)
    ensures
        spec_drain(expected, 0, complete_reports(expected)) == Step::Finish,
{
    lemma_rest_finishes(expected, 0);
}

/// From `received` of `expected`, the missing partial results and then the
/// closing lead to `Finish`.
proof fn lemma_rest_finishes(expected: nat, received: nat)
    requires
        received <= expected,
    ensures
        spec_drain(expected, received, complete_reports((expected - received) as nat))
            == Step::Finish,
    decreases expected - received,
{
    let k = (expected - received) as nat;
    let reports = complete_reports(k);
    if k > 0 {
        lemma_rest_finishes(expected, received + 1);
        assert(reports.drop_first() =~= complete_reports((k - 1) as nat));
    }
}

/// A run in which the channel closes after fewer partial results than
/// expected ends in `Missing`, never with a total.
pub proof fn lemma_early_close_aborts(expected: nat, k: nat)
    requires
        k < expected,
        expected <= usize::MAX,
    ensures
        spec_drain(expected, 0, complete_reports(k)) == Step::Abort(
            AggregateError::Missing { expected: expected as usize, received: k as usize },
        ),
{
    lemma_early_close_from(expected, 0, k);
}

proof fn lemma_early_close_from(expected: nat, received: nat, k: nat)
    requires
        received + k < expected,
        expected <= usize::MAX,
    ensures
        spec_drain(expected, received, complete_reports(k)) == Step::Abort(
            AggregateError::Missing {
                expected: expected as usize,
                received: (received + k) as usize,
            },
        ),
    decreases k,
{
    let reports = complete_reports(k);
    if k > 0 {
        lemma_early_close_from(expected, received + 1, (k - 1) as nat);
        assert(reports.drop_first() =~= complete_reports((k - 1) as nat));
    }
}

} // verus!
