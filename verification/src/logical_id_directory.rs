//! The directory of logical ids that a coordinator rebuilds when it attaches to populated
//! remote shards: the union over every physical copy, or nothing at all.

use vstd::prelude::*;

use crate::error::{ConfigFault, ProtocolFault, ShardError};
use crate::logical_id_scan::{
    described, increasing, ordered, reserve_exact, same_elements, sort_leaf,
    tells_of_no_room,
};
use crate::logical_id_wire::MAX_LIVE_LOGICAL_IDS;

verus! {

/// `Vec::capacity`: the elements that fit without another allocation. How many more than the
/// vector holds is the allocator's to say.
#[verifier::external_body]
fn capacity(ids: &Vec<u64>) -> (r: usize)
    ensures
        r >= ids@.len(),
{
    ids.capacity()
}

/// Drops the repetitions from ordered ids.
fn drop_repeated(ids: &mut Vec<u64>)
    requires
        ordered(old(ids)@, 0, old(ids).len() as int),
    ensures
        increasing(final(ids)@),
        forall|x: u64| final(ids)@.contains(x) <==> old(ids)@.contains(x),
{
    if ids.len() == 0 {
        return;
    }
    let ghost s0 = ids@;
    let mut kept: usize = 1;
    let mut i: usize = 1;
    while i < ids.len()
        invariant
            s0 == old(ids)@,
            ids.len() == s0.len(),
            1 <= kept <= i <= ids.len(),
            ordered(s0, 0, s0.len() as int),
            forall|j: int| i <= j < ids.len() ==> ids@[j] == s0[j],
            increasing(ids@.take(kept as int)),
            ids@[kept - 1] == s0[i - 1],
            forall|x: u64| #[trigger]
                ids@.take(kept as int).contains(x) <==> s0.take(i as int).contains(x),
        decreases ids.len() - i,
    {
        let id: u64 = ids[i];
        let ghost front = ids@.take(kept as int);
        let ghost seen = s0.take(i as int);
        proof {
            assert(s0[i - 1] <= s0[i as int]);
            assert(s0.take(i + 1) =~= seen.push(id));
            assert(front[kept - 1] == s0[i - 1]);
        }
        if ids[kept - 1] != id {
            ids.set(kept, id);
            kept = kept + 1;
            proof {
                let now = ids@.take(kept as int);
                assert(now =~= front.push(id));
                assert forall|a: int, b: int| 0 <= a < b < now.len() implies now[a] < now[b] by {
                    if b == front.len() && a < front.len() - 1 {
                        assert(front[a] < front[front.len() - 1]);
                    }
                }
            }
        }
        proof {
            let now = ids@.take(kept as int);
            assert forall|x: u64| #[trigger] now.contains(x) <==> s0.take(i + 1).contains(x) by {
                lemma_pushed_members(front, id, x);
                lemma_pushed_members(seen, id, x);
                assert(front.contains(x) <==> seen.contains(x));
                if now == front {
                    assert(front[front.len() - 1] == id);
                }
            }
        }
        i = i + 1;
    }
    let ghost full = ids@;
    ids.truncate(kept);
    proof {
        assert(ids@ =~= full.take(kept as int));
        assert(s0.take(i as int) =~= s0);
    }
}

proof fn lemma_pushed_members(s: Seq<u64>, v: u64, x: u64)
    ensures
        s.push(v).contains(x) <==> (s.contains(x) || x == v),
{
    let p = s.push(v);
    if s.contains(x) {
        let i = choose|i: int| 0 <= i < s.len() && s[i] == x;
        assert(p[i] == x);
    }
    if p.contains(x) {
        let i = choose|i: int| 0 <= i < p.len() && p[i] == x;
        if i < s.len() {
            assert(s[i] == x);
        }
    }
    assert(p[s.len() as int] == v);
}

/// The view of `RemoteLogicalIds`.
#[verifier::ext_equal]
pub struct DirectoryView {
    pub ids: Seq<u64>,
    pub failure: Option<ShardError>,
}

/// The ids of the copies seen so far, or why there can be no directory.
pub struct RemoteLogicalIds {
    ids: Vec<u64>,
    failure: Option<ShardError>,
}

impl View for RemoteLogicalIds {
    type V = DirectoryView;

    closed spec fn view(&self) -> DirectoryView {
        DirectoryView { ids: self.ids@, failure: self.failure }
    }
}

/// A directory to which no copy was added.
pub open spec fn no_copies() -> DirectoryView {
    DirectoryView { ids: Seq::empty(), failure: None }
}

impl Default for RemoteLogicalIds {
    fn default() -> (r: Self)
        ensures
            r@ == no_copies(),
    {
        let r = RemoteLogicalIds { ids: Vec::new(), failure: None };
        assert(r@ =~= no_copies());
        r
    }
}

/// The message of the failure of one copy.
pub open spec fn copy_failure(
    position: usize,
    copy: usize,
    detail: Seq<char>,
    e: ShardError,
) -> bool {
    e matches ShardError::Protocol(
        ProtocolFault::Enumeration { position: p, copy: c, detail: d },
    ) && p == position && c == copy && d@ == detail
}

/// `union` has the ids of both, in increasing order.
pub open spec fn is_union(union: Seq<u64>, a: Seq<u64>, b: Seq<u64>) -> bool {
    &&& increasing(union)
    &&& forall|x: u64| #[trigger] union.contains(x) <==> (a.contains(x) || b.contains(x))
}

/// The union of both is over the limit of a directory.
pub open spec fn union_too_large(a: Seq<u64>, b: Seq<u64>) -> bool {
    exists|union: Seq<u64>| #[trigger]
        is_union(union, a, b) && union.len() > MAX_LIVE_LOGICAL_IDS
}

/// Whether a copy has to be enumerated: not once the directory has failed, and not where the copy
/// says that it holds nothing.
pub open spec fn to_enumerate(
    directory: DirectoryView,
    num_queries: Result<usize, ShardError>,
) -> bool {
    directory.failure is None && !(num_queries matches Ok(n) && n == 0)
}

/// What a copy answered, by its ids.
pub open spec fn answered(answer: Result<Vec<u64>, ShardError>) -> Result<Seq<u64>, ShardError> {
    match answer {
        Ok(ids) => Ok(ids@),
        Err(e) => Err(e),
    }
}

/// The failure `e` is that of a copy: of its answer, or of its ids, where they are too many or
/// find no room. No ids at all always find room.
pub open spec fn copy_fails(
    ids: Seq<u64>,
    answer: Result<Seq<u64>, ShardError>,
    position: usize,
    copy: usize,
    e: ShardError,
) -> bool {
    match answer {
        Err(fault) => copy_failure(position, copy, fault.text(), e),
        Ok(more) => {
            ||| {
                let fault = ConfigFault::DirectoryTooLarge { limit: MAX_LIVE_LOGICAL_IDS as u64 };
                union_too_large(ids, more) && copy_failure(position, copy, fault.text(), e)
            }
            ||| more.len() > 0 && exists|detail: String|
                {
                    let fault = ConfigFault::DirectoryAllocation { detail };
                    #[trigger] tells_of_no_room(detail) && copy_failure(
                        position,
                        copy,
                        fault.text(),
                        e,
                    )
                }
        },
    }
}

/// What the answer of one physical copy makes of a directory: the union with its ids, or a
/// failure, after which there are no ids and nothing changes any more.
pub open spec fn copy_step(
    before: DirectoryView,
    answer: Result<Seq<u64>, ShardError>,
    position: usize,
    copy: usize,
    after: DirectoryView,
) -> bool {
    if before.failure is Some {
        after == before
    } else {
        match after.failure {
            None => {
                &&& answer matches Ok(ids) && is_union(after.ids, before.ids, ids)
                &&& after.ids.len() <= MAX_LIVE_LOGICAL_IDS
            },
            Some(e) => {
                &&& after.ids == Seq::<u64>::empty()
                &&& copy_fails(before.ids, answer, position, copy, e)
            },
        }
    }
}

impl RemoteLogicalIds {
    /// Whether no copy has failed yet. Once one has, no other needs to be asked anything.
    pub fn is_open(&self) -> (r: bool)
        ensures
            r == (self@.failure is None),
    {
        self.failure.is_none()
    }

    /// Whether a copy has to be enumerated: not once the directory has failed, and not where
    /// the copy says that it holds nothing.
    pub fn needs_enumeration(&self, num_queries: &Result<usize, ShardError>) -> (r: bool)
        ensures
            r == to_enumerate(self@, *num_queries),
    {
        if self.failure.is_some() {
            return false;
        }
        match num_queries {
            Ok(n) => *n != 0,
            Err(_) => true,
        }
    }

    /// Adds ids, given what came of making room for them: the directory is then the union, in
    /// increasing order, unless that is too large.
    pub fn merge_ids(&mut self, ids: Vec<u64>, room: Result<(), String>) -> (r: Result<
        (),
        ShardError,
    >)
        ensures
            final(self)@.failure == old(self)@.failure,
            match room {
                Err(detail) => {
                    &&& r == Err::<(), ShardError>(
                        ShardError::Config(ConfigFault::DirectoryAllocation { detail }),
                    )
                    &&& final(self)@ == old(self)@
                },
                Ok(()) => {
                    &&& is_union(final(self)@.ids, old(self)@.ids, ids@)
                    &&& r == if final(self)@.ids.len() <= MAX_LIVE_LOGICAL_IDS {
                        Ok::<(), ShardError>(())
                    } else {
                        Err::<(), ShardError>(
                            ShardError::Config(
                                ConfigFault::DirectoryTooLarge {
                                    limit: MAX_LIVE_LOGICAL_IDS as u64,
                                },
                            ),
                        )
                    }
                },
            },
    {
        match room {
            Ok(()) => {},
            Err(detail) => {
                return Err(ShardError::Config(ConfigFault::DirectoryAllocation { detail }));
            },
        }
        let mut ids = ids;
        let ghost mine = self.ids@;
        let ghost theirs = ids@;
        self.ids.append(&mut ids);
        let ghost both = self.ids@;
        let len: usize = self.ids.len();
        sort_leaf(&mut self.ids, 0, len);
        let ghost sorted = self.ids@;
        drop_repeated(&mut self.ids);
        proof {
            assert(sorted.subrange(0, len as int) =~= sorted);
            assert(both.subrange(0, len as int) =~= both);
            assert forall|x: u64| #[trigger] self.ids@.contains(x) <==> (mine.contains(x)
                || theirs.contains(x)) by {
                lemma_same_members(sorted, both, x);
                lemma_joined_members(mine, theirs, x);
            }
        }
        if self.ids.len() > MAX_LIVE_LOGICAL_IDS {
            return Err(
                ShardError::Config(
                    ConfigFault::DirectoryTooLarge { limit: MAX_LIVE_LOGICAL_IDS as u64 },
                ),
            );
        }
        Ok(())
    }

    /// Adds what one physical copy answered. The directory is the union of all copies, in
    /// increasing order; the first copy that cannot be added leaves it without ids for good.
    pub fn add_copy(
        &mut self,
        answer: Result<Vec<u64>, ShardError>,
        position: usize,
        copy: usize,
    )
        ensures
            copy_step(old(self)@, answered(answer), position, copy, final(self)@),
    {
        if self.failure.is_some() {
            return;
        }
        let ghost mine = self@.ids;
        let e = match answer {
            Ok(ids) => {
                let ghost theirs = ids@;
                let room = if ids.len() == 0 {
                    Ok(())
                } else {
                    described(self.ids.try_reserve(ids.len()))
                };
                assert(room is Err ==> tells_of_no_room(room->Err_0));
                match self.merge_ids(ids, room) {
                    Ok(()) => {
                        return;
                    },
                    Err(e) => {
                        assert(room is Ok ==> union_too_large(mine, theirs));
                        e
                    },
                }
            },
            Err(e) => e,
        };
        let detail = e.message();
        self.ids = Vec::new();
        self.failure = Some(
            ShardError::Protocol(
                ProtocolFault::Enumeration {
                    position: position as u64,
                    copy: copy as u64,
                    detail,
                },
            ),
        );
        assert(self.ids@ =~= Seq::<u64>::empty());
    }

    /// The directory, in an allocation of its own size.
    pub fn finish(self) -> (r: Result<Vec<u64>, ShardError>)
        ensures
            match r {
                Ok(ids) => self@.failure is None && ids@ == self@.ids,
                Err(e) => match self@.failure {
                    Some(failure) => e == failure,
                    None => {
                        &&& e matches ShardError::Config(ConfigFault::CompactAllocation { detail })
                            && tells_of_no_room(detail)
                        &&& self@.ids.len() > 0
                    },
                },
            },
    {
        match self.failure {
            Some(e) => Err(e),
            None => compact_ids(self.ids),
        }
    }
}

proof fn lemma_same_members(a: Seq<u64>, b: Seq<u64>, x: u64)
    requires
        same_elements(a, b),
    ensures
        a.contains(x) == b.contains(x),
{
    broadcast use vstd::seq_lib::group_to_multiset_ensures;

    assert(a.contains(x) <==> a.to_multiset().count(x) > 0);
    assert(b.contains(x) <==> b.to_multiset().count(x) > 0);
}

proof fn lemma_joined_members(a: Seq<u64>, b: Seq<u64>, x: u64)
    ensures
        (a + b).contains(x) <==> (a.contains(x) || b.contains(x)),
{
    let c = a + b;
    if a.contains(x) {
        let i = choose|i: int| 0 <= i < a.len() && a[i] == x;
        assert(c[i] == x);
    }
    if b.contains(x) {
        let i = choose|i: int| 0 <= i < b.len() && b[i] == x;
        assert(c[a.len() + i] == x);
    }
    if c.contains(x) {
        let i = choose|i: int| 0 <= i < c.len() && c[i] == x;
        if i < a.len() {
            assert(a[i] == x);
        } else {
            assert(b[i - a.len()] == x);
        }
    }
}

/// The same ids in an allocation that holds no room for more: dropping repetitions changes the
/// length of a vector, not its capacity. That the new capacity is exact is the allocator's
/// part. Only ids that need an allocation can fail, in the words of that failure.
pub fn compact_ids(ids: Vec<u64>) -> (r: Result<Vec<u64>, ShardError>)
    ensures
        match r {
            Ok(compact) => compact@ == ids@,
            Err(e) => {
                &&& e matches ShardError::Config(ConfigFault::CompactAllocation { detail })
                    && tells_of_no_room(detail)
                &&& ids.len() > 0
            },
        },
{
    if ids.len() == capacity(&ids) {
        return Ok(ids);
    }
    let mut compact: Vec<u64> = Vec::new();
    let room = reserve_exact(&mut compact, ids.len());
    move_ids(ids, compact, room)
}

/// Moves ids behind those of another allocation, given what came of making room there.
pub fn move_ids(ids: Vec<u64>, compact: Vec<u64>, room: Result<(), String>) -> (r: Result<
    Vec<u64>,
    ShardError,
>)
    ensures
        match room {
            Ok(()) => r matches Ok(moved) && moved@ == compact@ + ids@,
            Err(detail) => r == Err::<Vec<u64>, ShardError>(
                ShardError::Config(ConfigFault::CompactAllocation { detail }),
            ),
        },
{
    match room {
        Ok(()) => {
            let mut ids = ids;
            let mut compact = compact;
            compact.append(&mut ids);
            Ok(compact)
        },
        Err(detail) => Err(ShardError::Config(ConfigFault::CompactAllocation { detail })),
    }
}

/// What a coordinator does with what was collected.
#[derive(Debug, PartialEq, Eq)]
pub enum Installation {
    /// Install the membership; `converged` says whether it also proves that no mutation of a
    /// former coordinator is unfinished.
    Install { ids: Vec<u64>, converged: bool },
    /// Create-only writes stay disabled; explicit upserts remain available.
    Unavailable(ShardError),
}

/// Decides on a collected directory. A union of ids proves membership; only an empty one also
/// proves convergence. An empty union needs no room, and is always installed.
pub fn plan_installation(collected: RemoteLogicalIds) -> (r: Installation)
    ensures
        match r {
            Installation::Install { ids, converged } => {
                &&& collected@.failure is None
                &&& ids@ == collected@.ids
                &&& converged == (ids.len() == 0)
            },
            Installation::Unavailable(e) => match collected@.failure {
                Some(failure) => e == failure,
                None => {
                    &&& e matches ShardError::Config(ConfigFault::CompactAllocation { detail })
                        && tells_of_no_room(detail)
                    &&& collected@.ids.len() > 0
                },
            },
        },
{
    match collected.finish() {
        Ok(ids) => {
            let converged: bool = ids.len() == 0;
            Installation::Install { ids, converged }
        },
        Err(e) => Installation::Unavailable(e),
    }
}

// ---- A whole directory ---------------------------------------------------------------------

/// What one physical copy reports: how many queries it holds, and what it answers where it is
/// enumerated.
pub struct CopyReport {
    pub num_queries: Result<usize, ShardError>,
    pub answer: Result<Seq<u64>, ShardError>,
    pub position: usize,
    pub copy: usize,
}

/// What one report makes of a directory. A copy that needs no enumeration leaves it as it is.
pub open spec fn report_step(
    before: DirectoryView,
    report: CopyReport,
    after: DirectoryView,
) -> bool {
    if to_enumerate(before, report.num_queries) {
        copy_step(before, report.answer, report.position, report.copy, after)
    } else {
        after == before
    }
}

/// The directory starts without copies and takes the reports one after the other.
pub open spec fn rebuilt(reports: Seq<CopyReport>, states: Seq<DirectoryView>) -> bool {
    &&& states.len() == reports.len() + 1
    &&& states[0] == no_copies()
    &&& forall|k: int|
        0 <= k < reports.len() ==> report_step(
            #[trigger] states[k],
            #[trigger] reports[k],
            states[k + 1],
        )
}

/// A report gives an id: the copy is not proven empty, and its answer has the id.
pub open spec fn gives(report: CopyReport, x: u64) -> bool {
    &&& !(report.num_queries matches Ok(n) && n == 0)
    &&& report.answer matches Ok(ids) && ids.contains(x)
}

/// The directory is that of the first `n` reports: every copy among them is proven empty or
/// answered, and the ids are what they gave, sorted and each once.
pub open spec fn is_whole(reports: Seq<CopyReport>, n: int, directory: DirectoryView) -> bool {
    &&& directory.failure is None
    &&& increasing(directory.ids)
    &&& directory.ids.len() <= MAX_LIVE_LOGICAL_IDS
    &&& forall|x: u64| #[trigger]
        directory.ids.contains(x) <==> exists|k: int| 0 <= k < n && #[trigger] gives(reports[k], x)
    &&& forall|k: int|
        0 <= k < n ==> ((#[trigger] reports[k]).num_queries matches Ok(n) && n == 0)
            || reports[k].answer is Ok
}

/// Report `k` is the first that fails, with `e`, which names its position and copy. The copies
/// before it gave the directory that it could not be added to. From it on there are no ids, the
/// failure stays, and no copy is enumerated, whatever it would say.
pub open spec fn fails_first(
    reports: Seq<CopyReport>,
    states: Seq<DirectoryView>,
    k: int,
    e: ShardError,
) -> bool {
    &&& 0 <= k < reports.len()
    &&& is_whole(reports, k, states[k])
    &&& to_enumerate(states[k], reports[k].num_queries)
    &&& copy_fails(
        states[k].ids,
        reports[k].answer,
        reports[k].position,
        reports[k].copy,
        e,
    )
    &&& forall|j: int|
        k < j <= reports.len() ==> #[trigger] states[j] == (DirectoryView {
            ids: Seq::empty(),
            failure: Some(e),
        })
    &&& forall|j: int, q: Result<usize, ShardError>|
        k < j <= reports.len() ==> !#[trigger] to_enumerate(states[j], q)
}

/// A directory that is rebuilt from any number of copies is the sorted union of all that they
/// gave, or it is the failure of the first copy that could not be added, and nothing else: no
/// ids, and no copy after it was enumerated. Copies proven empty are never enumerated.
pub proof fn lemma_whole_directory(reports: Seq<CopyReport>, states: Seq<DirectoryView>)
    requires
        rebuilt(reports, states),
    ensures
        match states.last().failure {
            None => is_whole(reports, reports.len() as int, states.last()),
            Some(e) => {
                &&& states.last().ids == Seq::<u64>::empty()
                &&& exists|k: int| #[trigger] fails_first(reports, states, k, e)
            },
        },
        forall|k: int|
            0 <= k < reports.len() && ((#[trigger] reports[k]).num_queries matches Ok(n) && n == 0)
                ==> !to_enumerate(states[k], reports[k].num_queries) && states[k + 1] == states[k],
{
    let n = reports.len() as int;
    lemma_directory_so_far(reports, states, n);
    if states[n].failure is Some {
        let k = choose|k: int| first_failed(reports, states, k, n);
        assert(fails_first(reports, states, k, states[n].failure->0));
    }
    assert forall|k: int|
        0 <= k < reports.len() && ((#[trigger] reports[k]).num_queries matches Ok(n) && n
            == 0) implies !to_enumerate(states[k], reports[k].num_queries) && states[k + 1]
        == states[k] by {
        assert(report_step(states[k], reports[k], states[k + 1]));
    }
}

/// Among the first `n` reports, report `k` is the first that fails.
spec fn first_failed(
    reports: Seq<CopyReport>,
    states: Seq<DirectoryView>,
    k: int,
    n: int,
) -> bool {
    &&& 0 <= k < n
    &&& is_whole(reports, k, states[k])
    &&& to_enumerate(states[k], reports[k].num_queries)
    &&& states[n].failure is Some
    &&& copy_fails(
        states[k].ids,
        reports[k].answer,
        reports[k].position,
        reports[k].copy,
        states[n].failure->0,
    )
    &&& forall|j: int|
        k < j <= n ==> #[trigger] states[j] == (DirectoryView {
            ids: Seq::empty(),
            failure: states[n].failure,
        })
}

proof fn lemma_directory_so_far(reports: Seq<CopyReport>, states: Seq<DirectoryView>, n: int)
    requires
        rebuilt(reports, states),
        0 <= n <= reports.len(),
    ensures
        states[n].failure is None ==> is_whole(reports, n, states[n]),
        states[n].failure is Some ==> exists|k: int| #[trigger]
            first_failed(reports, states, k, n),
    decreases n,
{
    if n == 0 {
        assert(states[0].ids =~= Seq::<u64>::empty());
    } else {
        let m = n - 1;
        lemma_directory_so_far(reports, states, m);
        let before = states[m];
        let report = reports[m];
        let after = states[n];
        assert(report_step(states[m], reports[m], states[m + 1]));
        if before.failure is Some {
            let k = choose|k: int| first_failed(reports, states, k, m);
            assert(first_failed(reports, states, k, n));
        } else if after.failure is Some {
            assert(first_failed(reports, states, m, n));
        } else {
            assert forall|x: u64| #[trigger] after.ids.contains(x) <==> exists|k: int|
                0 <= k < n && #[trigger] gives(reports[k], x) by {
                assert(before.ids.contains(x) <==> exists|k: int|
                    0 <= k < m && #[trigger] gives(reports[k], x));
                if gives(reports[m], x) {
                    assert(0 <= m < n);
                }
            }
        }
    }
}

} // verus!
