//! Cooperative cancellation: long work polls a check and stops at the first refusal.

use std::time::Instant;

use vstd::prelude::*;

use crate::error::ShardError;

verus! {

/// `std::time::Instant`, a point of the machine's monotonic clock.
#[verifier::external_type_specification]
#[verifier::external_body]
pub struct ExInstant(std::time::Instant);

/// A check that long work polls. It keeps, for the contracts, what each poll answered.
pub trait CancelCheck {
    /// The answers of all polls so far.
    spec fn polls(&self) -> Seq<Result<(), ShardError>>;

    /// The check allows everything, whenever it is polled.
    spec fn never_refuses(&self) -> bool;

    /// The one poll that the check refuses, counted from zero, where that is fixed.
    spec fn refused_poll(&self) -> Option<nat>;

    /// The error of every refusal, where that is fixed.
    spec fn refusal(&self) -> Option<ShardError>;

    /// Whether the work may go on.
    fn check(&mut self) -> (r: Result<(), ShardError>)
        ensures
            final(self).polls() == old(self).polls().push(r),
            final(self).never_refuses() == old(self).never_refuses(),
            old(self).never_refuses() ==> r is Ok,
            final(self).refused_poll() == old(self).refused_poll(),
            old(self).refused_poll() matches Some(n) ==> (r is Err <==> old(self).polls().len()
                == n),
            final(self).refusal() == old(self).refusal(),
            r matches Err(e) ==> refuses_with(old(self).refusal(), e),
    ;
}

/// The error `e` is the one that is fixed for refusals, where one is.
pub open spec fn refuses_with(refusal: Option<ShardError>, e: ShardError) -> bool {
    refusal matches Some(fixed) ==> e == fixed
}

/// Between two points every poll allowed the work to go on.
pub open spec fn all_clear(
    before: Seq<Result<(), ShardError>>,
    after: Seq<Result<(), ShardError>>,
) -> bool {
    &&& before.len() <= after.len()
    &&& after.take(before.len() as int) == before
    &&& forall|j: int| before.len() <= j < after.len() ==> (#[trigger] after[j]) is Ok
}

/// Between two points a poll refused, all before it allowed, and none came after it.
pub open spec fn stopped(
    before: Seq<Result<(), ShardError>>,
    after: Seq<Result<(), ShardError>>,
    error: ShardError,
) -> bool {
    &&& after.len() > 0
    &&& all_clear(before, after.drop_last())
    &&& after.last() == Err::<(), ShardError>(error)
}

/// One more answer after polls that all allowed: an `Ok` keeps it so, and an error stops.
pub proof fn lemma_clear_step(
    before: Seq<Result<(), ShardError>>,
    after: Seq<Result<(), ShardError>>,
    answer: Result<(), ShardError>,
)
    requires
        all_clear(before, after),
    ensures
        answer is Ok ==> all_clear(before, after.push(answer)),
        answer is Err ==> stopped(before, after.push(answer), answer->Err_0),
{
    let next = after.push(answer);
    assert(next.drop_last() =~= after);
    assert(next.take(before.len() as int) =~= after.take(before.len() as int));
}

/// Polls that all allowed, followed by what came of further polls, are one run of polls.
pub proof fn lemma_clear_chain(
    a: Seq<Result<(), ShardError>>,
    b: Seq<Result<(), ShardError>>,
    c: Seq<Result<(), ShardError>>,
)
    requires
        all_clear(a, b),
    ensures
        all_clear(b, c) ==> all_clear(a, c),
        forall|e: ShardError| #[trigger] stopped(b, c, e) ==> stopped(a, c, e),
{
    if all_clear(b, c) {
        lemma_clear_two(a, b, c);
    }
    assert forall|e: ShardError| #[trigger] stopped(b, c, e) implies stopped(a, c, e) by {
        lemma_clear_two(a, b, c.drop_last());
    }
}

proof fn lemma_clear_two(
    a: Seq<Result<(), ShardError>>,
    b: Seq<Result<(), ShardError>>,
    c: Seq<Result<(), ShardError>>,
)
    requires
        all_clear(a, b),
        all_clear(b, c),
    ensures
        all_clear(a, c),
{
    assert(c.take(a.len() as int) =~= c.take(b.len() as int).take(a.len() as int));
    assert forall|j: int| a.len() <= j < c.len() implies (#[trigger] c[j]) is Ok by {
        if j < b.len() {
            assert(c.take(b.len() as int)[j] == b[j]);
        }
    }
}

/// What polling keeps of a check: which polls it refuses, and with which error, where that is
/// fixed, and what it has answered; and that it answered accordingly.
pub open spec fn carried<C: CancelCheck>(before: C, after: C) -> bool {
    &&& after.never_refuses() == before.never_refuses()
    &&& after.refused_poll() == before.refused_poll()
    &&& after.refusal() == before.refusal()
    &&& before.polls().len() <= after.polls().len()
    &&& after.polls().take(before.polls().len() as int) == before.polls()
    &&& before.refused_poll() matches Some(n) ==> forall|j: int|
        before.polls().len() <= j < after.polls().len() ==> ((#[trigger] after.polls()[j]) is Err
            <==> j == n)
    &&& forall|j: int|
        before.polls().len() <= j < after.polls().len() ==> ((#[trigger] after.polls()[j]) matches
            Err(e) ==> refuses_with(before.refusal(), e))
}

/// A check keeps itself.
pub proof fn lemma_carried_none<C: CancelCheck>(a: C)
    ensures
        carried(a, a),
{
    assert(a.polls().take(a.polls().len() as int) =~= a.polls());
}

/// One more poll.
pub proof fn lemma_carried_step<C: CancelCheck>(a: C, b: C, c: C, answer: Result<(), ShardError>)
    requires
        carried(a, b),
        c.polls() == b.polls().push(answer),
        c.never_refuses() == b.never_refuses(),
        c.refused_poll() == b.refused_poll(),
        b.refused_poll() matches Some(n) ==> (answer is Err <==> b.polls().len() == n),
        c.refusal() == b.refusal(),
        answer matches Err(e) ==> refuses_with(b.refusal(), e),
    ensures
        carried(a, c),
{
    assert(c.polls().take(a.polls().len() as int) =~= b.polls().take(a.polls().len() as int));
}

/// Polls followed by further polls.
pub proof fn lemma_carried_chain<C: CancelCheck>(a: C, b: C, c: C)
    requires
        carried(a, b),
        carried(b, c),
    ensures
        carried(a, c),
{
    let n = b.polls().len() as int;
    assert(c.polls().take(a.polls().len() as int) =~= c.polls().take(n).take(
        a.polls().len() as int,
    ));
    if a.refused_poll() is Some {
        assert forall|j: int| a.polls().len() <= j < c.polls().len() implies ((
        #[trigger] c.polls()[j]) is Err <==> j == a.refused_poll()->0) by {
            if j < n {
                assert(c.polls().take(n)[j] == b.polls()[j]);
            }
        }
    }
    assert forall|j: int| a.polls().len() <= j < c.polls().len() implies ((
    #[trigger] c.polls()[j]) matches Err(e) ==> refuses_with(a.refusal(), e)) by {
        if j < n {
            assert(c.polls().take(n)[j] == b.polls()[j]);
        }
    }
}

/// Where the error of refusals is fixed, work that a refusal ended ends with that error.
pub proof fn lemma_stopped_with<C: CancelCheck>(before: C, after: C, e: ShardError)
    requires
        carried(before, after),
        stopped(before.polls(), after.polls(), e),
    ensures
        refuses_with(before.refusal(), e),
{
    assert(after.polls()[after.polls().len() - 1] == Err::<(), ShardError>(e));
}

/// Every refusal among the answers says that the deadline is exceeded.
pub open spec fn refused_by_deadline(polls: Seq<Result<(), ShardError>>) -> bool {
    forall|j: int|
        0 <= j < polls.len() ==> ((#[trigger] polls[j]) is Err ==> polls[j] == Err::<
            (),
            ShardError,
        >(ShardError::DeadlineExceeded))
}

/// Where the refused poll is fixed, work of a given number of polls fails exactly where that
/// poll is among them, and ends with it.
pub proof fn lemma_stops_when_due<C: CancelCheck>(
    before: C,
    after: C,
    polls: nat,
    failure: Option<ShardError>,
)
    requires
        carried(before, after),
        before.refused_poll() is Some,
        after.polls().len() <= before.polls().len() + polls,
        match failure {
            None => all_clear(before.polls(), after.polls()) && after.polls().len()
                == before.polls().len() + polls,
            Some(e) => stopped(before.polls(), after.polls(), e),
        },
    ensures
        ({
            let n = before.refused_poll()->0;
            &&& failure is Some <==> before.polls().len() <= n < before.polls().len() + polls
            &&& failure is Some ==> after.polls().len() == n + 1
        }),
{
    let n = before.refused_poll()->0;
    match failure {
        None => {
            if before.polls().len() <= n < after.polls().len() {
                assert(after.polls()[n as int] is Ok);
            }
        },
        Some(_) => {
            let last = after.polls().len() - 1;
            assert(after.polls()[last] is Err);
        },
    }
}

/// `Instant::now`: the present point of the clock, of which nothing can be promised.
#[verifier::external_body]
fn now() -> Instant {
    Instant::now()
}

/// What `Instant::ge` answers: whether the first point is the second or lies after it.
pub uninterp spec fn not_before(present: std::time::Instant, at: std::time::Instant) -> bool;

/// `Instant::ge`: whether the point `present` is `at` or lies after it, which depends on the two
/// points alone. Instants are opaque here, so that this is a total order is left unsaid.
#[verifier::external_body]
fn reached(present: &Instant, at: &Instant) -> (r: bool)
    ensures
        r == not_before(*present, *at),
{
    present.ge(at)
}

/// What a deadline answers, given whether it has passed.
pub open spec fn answer(passed: bool) -> Result<(), ShardError> {
    if passed {
        Err(ShardError::DeadlineExceeded)
    } else {
        Ok(())
    }
}

/// What a deadline answers, given whether it has passed.
pub fn deadline_answer(passed: bool) -> (r: Result<(), ShardError>)
    ensures
        r == answer(passed),
{
    if passed {
        Err(ShardError::DeadlineExceeded)
    } else {
        Ok(())
    }
}

/// A check that refuses once a point in time is reached.
pub struct Deadline {
    at: Instant,
    log: Ghost<Seq<Result<(), ShardError>>>,
}

impl Deadline {
    #[verifier::type_invariant]
    spec fn records_deadlines(self) -> bool {
        refused_by_deadline(self.log@)
    }

    /// The point in time from which the check refuses.
    pub closed spec fn at(&self) -> Instant {
        self.at
    }

    /// A check that has not been polled.
    pub fn new(at: Instant) -> (r: Self)
        ensures
            r.at() == at,
            r.polls() == Seq::<Result<(), ShardError>>::empty(),
    {
        Deadline { at, log: Ghost(Seq::empty()) }
    }

    /// What a poll at the point `present` answers. Every refusal so far gave the same error.
    pub fn answer_at(&self, present: Instant) -> (r: Result<(), ShardError>)
        ensures
            r == answer(not_before(present, self.at())),
            refused_by_deadline(self.polls()),
    {
        proof {
            use_type_invariant(self);
        }
        deadline_answer(reached(&present, &self.at))
    }
}

impl CancelCheck for Deadline {
    closed spec fn polls(&self) -> Seq<Result<(), ShardError>> {
        self.log@
    }

    open spec fn never_refuses(&self) -> bool {
        false
    }

    open spec fn refused_poll(&self) -> Option<nat> {
        None
    }

    open spec fn refusal(&self) -> Option<ShardError> {
        Some(ShardError::DeadlineExceeded)
    }

    /// Answers as at some present point of the clock.
    fn check(&mut self) -> (r: Result<(), ShardError>)
        ensures
            exists|present: Instant| r == answer(#[trigger] not_before(present, old(self).at())),
            final(self).at() == old(self).at(),
    {
        let present = now();
        let r = self.answer_at(present);
        *self = Deadline { at: self.at, log: Ghost(self.log@.push(r)) };
        r
    }
}

/// A check that refuses one poll, given by its number from one; with zero it never refuses.
pub struct PollBudget {
    count: usize,
    stop_at: usize,
    log: Ghost<Seq<Result<(), ShardError>>>,
}

impl PollBudget {
    #[verifier::type_invariant]
    spec fn counts_polls(self) -> bool {
        &&& self.count == if self.log@.len() < usize::MAX {
            self.log@.len()
        } else {
            usize::MAX as nat
        }
        &&& refused_by_deadline(self.log@)
    }

    /// How many polls are counted. The count stays at the largest number that it can hold.
    pub closed spec fn counts(&self) -> usize {
        self.count
    }

    /// The number of the poll that is refused.
    pub closed spec fn stops_at(&self) -> usize {
        self.stop_at
    }

    /// A check that has not been polled.
    pub fn new(stop_at: usize) -> (r: Self)
        ensures
            r.counts() == 0,
            r.stops_at() == stop_at,
            r.polls() == Seq::<Result<(), ShardError>>::empty(),
    {
        PollBudget { count: 0, stop_at, log: Ghost(Seq::empty()) }
    }

    /// How many polls came, as far as they can be counted. Every refusal among them gave the
    /// same error.
    pub fn count(&self) -> (r: usize)
        ensures
            r == self.counts(),
            self.polls().len() < usize::MAX ==> r == self.polls().len(),
            refused_by_deadline(self.polls()),
    {
        proof {
            use_type_invariant(self);
        }
        self.count
    }
}

impl CancelCheck for PollBudget {
    closed spec fn polls(&self) -> Seq<Result<(), ShardError>> {
        self.log@
    }

    open spec fn never_refuses(&self) -> bool {
        self.stops_at() == 0
    }

    open spec fn refused_poll(&self) -> Option<nat> {
        if self.stops_at() == 0 {
            None
        } else {
            Some((self.stops_at() - 1) as nat)
        }
    }

    open spec fn refusal(&self) -> Option<ShardError> {
        Some(ShardError::DeadlineExceeded)
    }

    fn check(&mut self) -> (r: Result<(), ShardError>)
        ensures
            final(self).stops_at() == old(self).stops_at(),
            final(self).counts() == if old(self).counts() == usize::MAX {
                usize::MAX
            } else {
                (old(self).counts() + 1) as usize
            },
            r == answer(
                old(self).counts() < usize::MAX && old(self).counts() + 1 == old(self).stops_at(),
            ),
    {
        proof {
            use_type_invariant(&*self);
        }
        let counted = self.count < usize::MAX;
        let next: usize = if counted { self.count + 1 } else { self.count };
        let r = deadline_answer(counted && next == self.stop_at);
        *self = PollBudget {
            count: next,
            stop_at: self.stop_at,
            log: Ghost(self.log@.push(r)),
        };
        r
    }
}

// ---- Laws ----------------------------------------------------------------------------------

/// A deadline refuses exactly once it has passed, and says that it is exceeded.
pub proof fn lemma_deadline_answers(passed: bool)
    ensures
        passed ==> answer(passed) == Err::<(), ShardError>(ShardError::DeadlineExceeded),
        !passed ==> answer(passed) == Ok::<(), ShardError>(()),
{
}

/// A budget of polls refuses the poll that it was made for, counted from one, and no other; a
/// budget of zero refuses none.
pub proof fn lemma_budget(budget: PollBudget)
    ensures
        budget.never_refuses() <==> budget.stops_at() == 0,
        budget.stops_at() == 0 ==> budget.refused_poll() is None,
        budget.stops_at() > 0 ==> budget.refused_poll() == Some((budget.stops_at() - 1) as nat),
        budget.refusal() == Some(ShardError::DeadlineExceeded),
{
}

/// Nothing is refused between two points: what was answered before stays, and every further answer
/// allows.
pub open spec fn goes_on_to(
    before: Seq<Result<(), ShardError>>,
    after: Seq<Result<(), ShardError>>,
    end: int,
) -> bool {
    &&& before.len() <= end <= after.len()
    &&& forall|j: int| 0 <= j < before.len() ==> #[trigger] after[j] == before[j]
    &&& forall|j: int| before.len() <= j < end ==> !((#[trigger] after[j]) is Err)
}

/// Polls, answer by answer: work went through where no further answer refused; and it was stopped
/// where the last answer, and none before it, is the error.
pub proof fn lemma_polls_read(
    before: Seq<Result<(), ShardError>>,
    after: Seq<Result<(), ShardError>>,
    error: ShardError,
)
    ensures
        all_clear(before, after) <==> goes_on_to(before, after, after.len() as int),
        stopped(before, after, error) <==> goes_on_to(before, after, after.len() - 1)
            && after[after.len() - 1] == Err::<(), ShardError>(error),
{
    lemma_clear_read(before, after);
    if after.len() > 0 {
        let d = after.drop_last();
        lemma_clear_read(before, d);
        if goes_on_to(before, d, d.len() as int) {
            assert forall|j: int| 0 <= j < before.len() implies #[trigger] after[j]
                == before[j] by {
                assert(d[j] == before[j]);
            }
            assert forall|j: int| before.len() <= j < after.len() - 1 implies !((
            #[trigger] after[j]) is Err) by {
                assert(!(d[j] is Err));
            }
        }
        if goes_on_to(before, after, after.len() - 1) {
            assert forall|j: int| 0 <= j < before.len() implies #[trigger] d[j] == before[j] by {
                assert(after[j] == before[j]);
            }
            assert forall|j: int| before.len() <= j < d.len() implies !((
            #[trigger] d[j]) is Err) by {
                assert(!(after[j] is Err));
            }
        }
    }
}

proof fn lemma_clear_read(
    before: Seq<Result<(), ShardError>>,
    after: Seq<Result<(), ShardError>>,
)
    ensures
        all_clear(before, after) <==> goes_on_to(before, after, after.len() as int),
{
    if all_clear(before, after) {
        assert forall|j: int| 0 <= j < before.len() implies #[trigger] after[j] == before[j] by {
            assert(after.take(before.len() as int)[j] == after[j]);
        }
    }
    if goes_on_to(before, after, after.len() as int) {
        assert(after.take(before.len() as int) =~= before);
    }
}

} // verus!
