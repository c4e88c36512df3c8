//! A bounded snapshot of live logical ids: sorted in place by a cancellable radix sort, and
//! checked for completeness and uniqueness.

use std::collections::TryReserveError;

use vstd::multiset::Multiset;
use vstd::prelude::*;
use vstd::string::to_string_from_display_ensures;

use crate::cancel::{
    CancelCheck, all_clear, carried, lemma_carried_chain, lemma_carried_none, lemma_carried_step,
    lemma_clear_chain, lemma_clear_step, lemma_stopped_with, lemma_stops_when_due, refuses_with,
    stopped,
};
use crate::error::{ConfigFault, ProtocolFault, ShardError};

verus! {

/// Ranges of at most this many ids are handed to the standard sort, which cannot be cancelled.
pub const LEAF: usize = 4096;

/// Work steps between two polls.
pub const POLL_EVERY: usize = 256;

/// The range from `start` to `end` is in order.
pub open spec fn ordered(s: Seq<u64>, start: int, end: int) -> bool {
    forall|i: int, j: int| start <= i < j < end ==> s[i] <= s[j]
}

/// `a` holds the elements of `b`, each as often, in whatever order.
pub open spec fn same_elements(a: Seq<u64>, b: Seq<u64>) -> bool {
    a.to_multiset() == b.to_multiset()
}

/// The polls of `n` steps: one before the first of every 256.
pub open spec fn step_polls(n: nat) -> nat {
    (n + POLL_EVERY as nat - 1) as nat / POLL_EVERY as nat
}

/// The ids that have a byte at a shift.
pub open spec fn with_byte(ids: Multiset<u64>, shift: u32, g: int) -> Multiset<u64> {
    ids.filter(|id: u64| byte(id, shift) == g)
}

/// The polls that sorting ids from the byte at `shift` down takes. A leaf takes one at each end.
/// A level takes one at each end, one for every 256 counting steps, one for every 256
/// partitioning steps, and what its buckets take from the next byte down.
pub open spec fn sort_polls(ids: Multiset<u64>, shift: u32) -> nat
    decreases shift, 257nat,
{
    if ids.len() <= LEAF {
        2
    } else {
        2 + 2 * step_polls(ids.len()) + bucket_polls(ids, shift, 256)
    }
}

/// The polls that the buckets of the first `k` bytes take. A bucket of at most one id is left as
/// it is, and so is everything at the lowest byte.
pub open spec fn bucket_polls(ids: Multiset<u64>, shift: u32, k: nat) -> nat
    decreases shift, k,
{
    if k == 0 || shift < 8 {
        0
    } else {
        let bucket = with_byte(ids, shift, k - 1);
        bucket_polls(ids, shift, (k - 1) as nat) + if bucket.len() <= 1 {
            0
        } else {
            sort_polls(bucket, (shift - 8) as u32)
        }
    }
}

proof fn lemma_bucket_polls_grow(ids: Multiset<u64>, shift: u32, k: nat, n: nat)
    requires
        k <= n,
    ensures
        bucket_polls(ids, shift, k) <= bucket_polls(ids, shift, n),
    decreases n,
{
    if k < n {
        lemma_bucket_polls_grow(ids, shift, k, (n - 1) as nat);
    }
}

/// Where more than a leaf of ids share a byte, the level of that byte polls in full and then all
/// of them are sorted from the next byte down.
pub proof fn lemma_shared_byte_polls(ids: Multiset<u64>, shift: u32, g: int)
    requires
        ids.len() > LEAF,
        8 <= shift,
        0 <= g < 256,
        forall|id: u64| #[trigger] ids.count(id) > 0 ==> byte(id, shift) == g,
    ensures
        sort_polls(ids, shift) == 2 + 2 * step_polls(ids.len()) + sort_polls(
            ids,
            (shift - 8) as u32,
        ),
{
    lemma_shared_bucket_polls(ids, shift, g, 256);
}

proof fn lemma_shared_bucket_polls(ids: Multiset<u64>, shift: u32, g: int, k: nat)
    requires
        ids.len() > LEAF,
        8 <= shift,
        0 <= g,
        forall|id: u64| #[trigger] ids.count(id) > 0 ==> byte(id, shift) == g,
    ensures
        bucket_polls(ids, shift, k) == if g < k {
            sort_polls(ids, (shift - 8) as u32)
        } else {
            0
        },
    decreases k,
{
    broadcast use vstd::multiset::group_multiset_axioms;

    if k > 0 {
        lemma_shared_bucket_polls(ids, shift, g, (k - 1) as nat);
        let bucket = with_byte(ids, shift, k - 1);
        if k - 1 == g {
            assert forall|id: u64| bucket.count(id) == ids.count(id) by {
                if ids.count(id) > 0 {
                    assert(byte(id, shift) == g);
                }
            }
            assert(bucket =~= ids);
        } else {
            assert forall|id: u64| bucket.count(id) == 0 by {
                if ids.count(id) > 0 {
                    assert(byte(id, shift) == g);
                }
            }
            assert(bucket =~= Multiset::<u64>::empty());
        }
    }
}

// ---- Bytes ---------------------------------------------------------------------------------

/// The byte of an id at a shift.
pub open spec fn byte(id: u64, shift: u32) -> u64 {
    (id >> shift) & 0xff
}

/// The ids agree in every bit above the byte at `shift`.
pub open spec fn agree_above(s: Seq<u64>, start: int, end: int, shift: u32) -> bool {
    forall|i: int, j: int|
        start <= i < end && start <= j < end ==> ((#[trigger] s[i]) >> shift) >> 8u32 == ((
        #[trigger] s[j]) >> shift) >> 8u32
}

proof fn lemma_byte_order(a: u64, b: u64, shift: u32)
    requires
        shift <= 56,
        (a >> shift) >> 8u32 == (b >> shift) >> 8u32,
    ensures
        byte(a, shift) < byte(b, shift) ==> a < b,
        byte(a, shift) == byte(b, shift) ==> a >> shift == b >> shift,
{
    assert(((a >> shift) & 0xff) < ((b >> shift) & 0xff) ==> a < b) by (bit_vector)
        requires
            shift <= 56,
            (a >> shift) >> 8u32 == (b >> shift) >> 8u32,
    ;
    assert(((a >> shift) & 0xff) == ((b >> shift) & 0xff) ==> a >> shift == b >> shift)
        by (bit_vector)
        requires
            shift <= 56,
            (a >> shift) >> 8u32 == (b >> shift) >> 8u32,
    ;
}

proof fn lemma_byte_bound(a: u64, shift: u32)
    ensures
        byte(a, shift) < 256,
        byte(a, shift) == (a >> shift) as u8,
{
    assert(((a >> shift) & 0xff) < 256) by (bit_vector);
    assert(((a >> shift) & 0xff) == (a >> shift) as u8) by (bit_vector);
}

proof fn lemma_next_byte(a: u64, shift: u32)
    requires
        8 <= shift <= 56,
    ensures
        (a >> ((shift - 8) as u32)) >> 8u32 == a >> shift,
{
    let lower = (shift - 8) as u32;
    assert((a >> lower) >> 8u32 == a >> shift) by (bit_vector)
        requires
            8 <= shift <= 56,
            lower == shift - 8,
    ;
}

proof fn lemma_last_byte(a: u64)
    ensures
        a >> 0u32 == a,
{
    assert(a >> 0u32 == a) by (bit_vector);
}

// ---- Counting ------------------------------------------------------------------------------

/// How many of the ids in `[start, start + n)` have byte `g`.
spec fn tally(s: Seq<u64>, start: int, n: int, shift: u32, g: int) -> int
    decreases n,
{
    if n <= 0 {
        0
    } else {
        tally(s, start, n - 1, shift, g) + if byte(s[start + n - 1], shift) == g {
            1int
        } else {
            0
        }
    }
}

/// The sum of the first `k` counts.
spec fn total(counts: Seq<usize>, k: int) -> int
    decreases k,
{
    if k <= 0 {
        0
    } else {
        total(counts, k - 1) + counts[k - 1]
    }
}

proof fn lemma_total_update(counts: Seq<usize>, g: int, v: usize, k: int)
    requires
        0 <= g < counts.len(),
        0 <= k <= counts.len(),
    ensures
        total(counts.update(g, v), k) == total(counts, k) + if g < k {
            v - counts[g]
        } else {
            0
        },
    decreases k,
{
    if k > 0 {
        lemma_total_update(counts, g, v, k - 1);
    }
}

proof fn lemma_total_monotone(counts: Seq<usize>, a: int, b: int)
    requires
        0 <= a <= b <= counts.len(),
    ensures
        total(counts, a) <= total(counts, b),
    decreases b - a,
{
    if a < b {
        lemma_total_monotone(counts, a, b - 1);
    }
}

proof fn lemma_total_zero(counts: Seq<usize>, k: int)
    requires
        forall|g: int| 0 <= g < counts.len() ==> counts[g] == 0,
        0 <= k <= counts.len(),
    ensures
        total(counts, k) == 0,
    decreases k,
{
    if k > 0 {
        lemma_total_zero(counts, k - 1);
    }
}

proof fn lemma_tally_update(s: Seq<u64>, start: int, n: int, shift: u32, g: int, i: int, v: u64)
    requires
        0 <= start,
        0 <= n,
        start + n <= s.len(),
        0 <= i < s.len(),
    ensures
        tally(s.update(i, v), start, n, shift, g) == tally(s, start, n, shift, g) + if start <= i
            < start + n {
            (if byte(v, shift) == g {
                1int
            } else {
                0
            }) - if byte(s[i], shift) == g {
                1int
            } else {
                0
            }
        } else {
            0
        },
    decreases n,
{
    if n > 0 {
        lemma_tally_update(s, start, n - 1, shift, g, i, v);
    }
}

/// A run of ids with byte `g` and one more outside the run are all counted.
proof fn lemma_tally_run(
    s: Seq<u64>,
    start: int,
    n: int,
    shift: u32,
    g: int,
    lo: int,
    hi: int,
    extra: int,
)
    requires
        0 <= start,
        0 <= n,
        start + n <= s.len(),
        start <= lo <= hi,
        forall|p: int| lo <= p < hi ==> byte(#[trigger] s[p], shift) == g,
        start <= extra,
        !(lo <= extra < hi),
        byte(s[extra], shift) == g,
    ensures
        tally(s, start, n, shift, g) >= (if hi <= start + n {
            hi - lo
        } else if lo <= start + n {
            start + n - lo
        } else {
            0
        }) + if extra < start + n {
            1int
        } else {
            0
        },
    decreases n,
{
    if n > 0 {
        lemma_tally_run(s, start, n - 1, shift, g, lo, hi, extra);
        let p = start + n - 1;
        if lo <= p < hi {
            assert(byte(s[p], shift) == g);
        }
    }
}

// ---- Permutations --------------------------------------------------------------------------

proof fn lemma_update_elements(s: Seq<u64>, i: int, v: u64)
    requires
        0 <= i < s.len(),
    ensures
        s.update(i, v).to_multiset() =~= s.to_multiset().remove(s[i]).insert(v),
{
    broadcast use vstd::seq_lib::group_to_multiset_ensures;

    let left = s.take(i);
    let right = s.skip(i + 1);
    assert(s =~= left + (seq![s[i]] + right));
    assert(s.update(i, v) =~= left + (seq![v] + right));
    vstd::seq_lib::lemma_multiset_commutative(left, seq![s[i]] + right);
    vstd::seq_lib::lemma_multiset_commutative(seq![s[i]], right);
    vstd::seq_lib::lemma_multiset_commutative(left, seq![v] + right);
    vstd::seq_lib::lemma_multiset_commutative(seq![v], right);
    assert(Seq::<u64>::empty().push(v) =~= seq![v]);
    assert(Seq::<u64>::empty().push(s[i]) =~= seq![s[i]]);
    assert(seq![v].to_multiset() =~= Seq::<u64>::empty().to_multiset().insert(v));
    assert(seq![s[i]].to_multiset() =~= Seq::<u64>::empty().to_multiset().insert(s[i]));
}

/// Exchanging two elements keeps the elements.
proof fn lemma_swap_elements(s: Seq<u64>, i: int, j: int)
    requires
        0 <= i < s.len(),
        0 <= j < s.len(),
    ensures
        same_elements(s.update(i, s[j]).update(j, s[i]), s),
{
    broadcast use vstd::seq_lib::group_to_multiset_ensures;

    lemma_update_elements(s, i, s[j]);
    let t = s.update(i, s[j]);
    lemma_update_elements(t, j, s[i]);
    assert(s.contains(s[i]));
    assert(s.contains(s[j]));
    if i == j {
        assert(t.update(j, s[i]) =~= s);
    } else {
        assert(t[j] == s[j]);
        assert(t.update(j, s[i]).to_multiset() =~= s.to_multiset());
    }
}

/// What is in a range after a rearrangement was in it before.
proof fn lemma_elements_from(a: Seq<u64>, b: Seq<u64>, i: int)
    requires
        same_elements(a, b),
        0 <= i < a.len(),
    ensures
        exists|j: int| 0 <= j < b.len() && b[j] == a[i],
{
    broadcast use vstd::seq_lib::group_to_multiset_ensures;

    assert(a.contains(a[i]));
    assert(b.to_multiset().count(a[i]) > 0);
    assert(b.contains(a[i]));
}

/// Rearranging one range of a sequence rearranges the range around it.
proof fn lemma_elements_nested(
    a: Seq<u64>,
    b: Seq<u64>,
    start: int,
    end: int,
    lo: int,
    hi: int,
)
    requires
        a.len() == b.len(),
        0 <= start <= lo <= hi <= end <= a.len(),
        same_elements(a.subrange(lo, hi), b.subrange(lo, hi)),
        forall|p: int| start <= p < lo || hi <= p < end ==> a[p] == b[p],
    ensures
        same_elements(a.subrange(start, end), b.subrange(start, end)),
{
    let al = a.subrange(start, lo);
    let am = a.subrange(lo, hi);
    let ar = a.subrange(hi, end);
    let bm = b.subrange(lo, hi);
    assert(al =~= b.subrange(start, lo));
    assert(ar =~= b.subrange(hi, end));
    assert(a.subrange(start, end) =~= al + (am + ar));
    assert(b.subrange(start, end) =~= al + (bm + ar));
    vstd::seq_lib::lemma_multiset_commutative(al, am + ar);
    vstd::seq_lib::lemma_multiset_commutative(am, ar);
    vstd::seq_lib::lemma_multiset_commutative(al, bm + ar);
    vstd::seq_lib::lemma_multiset_commutative(bm, ar);
}

// ---- The sort ------------------------------------------------------------------------------

/// The end of the bucket of byte `g`, and the start of the next one.
spec fn bound(counts: Seq<usize>, start: int, g: int) -> int {
    start + total(counts, g)
}

/// How many ids stand in the filled parts of the first `k` buckets.
spec fn placed_in(next: Seq<usize>, counts: Seq<usize>, start: int, k: int) -> int
    decreases k,
{
    if k <= 0 {
        0
    } else {
        placed_in(next, counts, start, k - 1) + next[k - 1] - bound(counts, start, k - 1)
    }
}

proof fn lemma_placed_update(
    next: Seq<usize>,
    counts: Seq<usize>,
    start: int,
    t: int,
    v: usize,
    k: int,
)
    requires
        0 <= t < next.len(),
        0 <= k <= next.len(),
    ensures
        placed_in(next.update(t, v), counts, start, k) == placed_in(next, counts, start, k)
            + if t < k {
            v - next[t]
        } else {
            0
        },
    decreases k,
{
    if k > 0 {
        lemma_placed_update(next, counts, start, t, v, k - 1);
    }
}

/// No more is placed than was counted, and less while some bucket `h` has room.
proof fn lemma_placed_bound(next: Seq<usize>, counts: Seq<usize>, start: int, h: int, k: int)
    requires
        next.len() == counts.len(),
        0 <= h < k <= next.len(),
        forall|g: int| 0 <= g < next.len() ==> #[trigger] next[g] <= bound(counts, start, g + 1),
    ensures
        placed_in(next, counts, start, k) + (bound(counts, start, h + 1) - next[h]) <= total(
            counts,
            k,
        ),
    decreases k,
{
    assert(next[k - 1] <= bound(counts, start, k - 1 + 1));
    if h == k - 1 {
        lemma_placed_upper(next, counts, start, k - 1);
    } else {
        lemma_placed_bound(next, counts, start, h, k - 1);
    }
}

proof fn lemma_placed_upper(next: Seq<usize>, counts: Seq<usize>, start: int, k: int)
    requires
        next.len() == counts.len(),
        0 <= k <= next.len(),
        forall|g: int| 0 <= g < next.len() ==> #[trigger] next[g] <= bound(counts, start, g + 1),
    ensures
        placed_in(next, counts, start, k) <= total(counts, k),
    decreases k,
{
    if k > 0 {
        assert(next[k - 1] <= bound(counts, start, k - 1 + 1));
        lemma_placed_upper(next, counts, start, k - 1);
    }
}

proof fn lemma_placed_full(next: Seq<usize>, counts: Seq<usize>, start: int, k: int)
    requires
        next.len() == counts.len(),
        0 <= k <= next.len(),
        forall|g: int| 0 <= g < next.len() ==> #[trigger] next[g] == bound(counts, start, g + 1),
    ensures
        placed_in(next, counts, start, k) == total(counts, k),
    decreases k,
{
    if k > 0 {
        assert(next[k - 1] == bound(counts, start, k - 1 + 1));
        lemma_placed_full(next, counts, start, k - 1);
    }
}

proof fn lemma_placed_none(next: Seq<usize>, counts: Seq<usize>, start: int, k: int)
    requires
        next.len() == counts.len(),
        0 <= k <= next.len(),
        forall|g: int| 0 <= g < next.len() ==> #[trigger] next[g] == bound(counts, start, g),
    ensures
        placed_in(next, counts, start, k) == 0,
    decreases k,
{
    if k > 0 {
        assert(next[k - 1] == bound(counts, start, k - 1));
        lemma_placed_none(next, counts, start, k - 1);
    }
}

/// A place is in one bucket.
proof fn lemma_one_bucket(counts: Seq<usize>, start: int, g: int, h: int, p: int)
    requires
        0 <= g < counts.len(),
        0 <= h < counts.len(),
        bound(counts, start, g) <= p < bound(counts, start, g + 1),
        bound(counts, start, h) <= p < bound(counts, start, h + 1),
    ensures
        g == h,
{
    if g < h {
        lemma_total_monotone(counts, g + 1, h);
    } else if h < g {
        lemma_total_monotone(counts, h + 1, g);
    }
}

/// `[T]::sort_unstable` on a range of the vector: the range comes out in order and holds the
/// same ids, and nothing outside it changes.
#[verifier::external_body]
pub(crate) fn sort_leaf(ids: &mut Vec<u64>, start: usize, end: usize)
    requires
        start <= end <= old(ids).len(),
    ensures
        final(ids).len() == old(ids).len(),
        ordered(final(ids)@, start as int, end as int),
        same_elements(
            final(ids)@.subrange(start as int, end as int),
            old(ids)@.subrange(start as int, end as int),
        ),
        forall|p: int|
            0 <= p < start || end <= p < old(ids).len() ==> #[trigger] final(ids)@[p]
                == old(ids)@[p],
{
    ids[start..end].sort_unstable()
}

/// The byte of an id at `shift`.
fn bucket(id: u64, shift: u32) -> (g: usize)
    requires
        shift <= 56,
    ensures
        g == byte(id, shift),
        g < 256,
{
    proof {
        lemma_byte_bound(id, shift);
    }
    ((id >> shift) as u8) as usize
}

/// Counts the ids of a range by their byte.
fn count_bytes<C: CancelCheck>(
    ids: &Vec<u64>,
    start: usize,
    end: usize,
    shift: u32,
    check: &mut C,
) -> (r: Result<[usize; 256], ShardError>)
    requires
        start <= end <= ids.len(),
        shift <= 56,
    ensures
        match r {
            Ok(counts) => {
                &&& forall|g: int|
                    0 <= g < 256 ==> #[trigger] counts@[g] == tally(
                        ids@,
                        start as int,
                        end - start,
                        shift,
                        g,
                    )
                &&& total(counts@, 256) == end - start
                &&& all_clear(old(check).polls(), final(check).polls())
                &&& final(check).polls().len() == old(check).polls().len() + step_polls(
                    (end - start) as nat,
                )
            },
            Err(e) => stopped(old(check).polls(), final(check).polls(), e),
        },
        final(check).polls().len() <= old(check).polls().len() + step_polls((end - start) as nat),
        carried(*old(check), *final(check)),
        old(check).never_refuses() ==> r is Ok,
{
    let mut counts = [0usize; 256];
    let mut i: usize = start;
    proof {
        lemma_total_zero(counts@, 256);
        assert(check.polls().take(check.polls().len() as int) =~= check.polls());
        lemma_carried_none(*check);
    }
    while i < end
        invariant
            start <= i <= end <= ids.len(),
            shift <= 56,
            forall|g: int|
                0 <= g < 256 ==> #[trigger] counts@[g] == tally(
                    ids@,
                    start as int,
                    i - start,
                    shift,
                    g,
                ),
            total(counts@, 256) == i - start,
            all_clear(old(check).polls(), check.polls()),
            carried(*old(check), *check),
            check.polls().len() == old(check).polls().len() + step_polls((i - start) as nat),
        decreases end - i,
    {
        if (i - start) % POLL_EVERY == 0 {
            let ghost polls = check.polls();
            let ghost earlier = *check;
            let answer = check.check();
            proof {
                lemma_clear_step(old(check).polls(), polls, answer);
                lemma_carried_step(*old(check), earlier, *check, answer);
            }
            match answer {
                Ok(()) => {},
                Err(e) => {
                    return Err(e);
                },
            }
        }
        let g: usize = bucket(ids[i], shift);
        proof {
            lemma_total_monotone(counts@, 0, g as int);
            lemma_total_monotone(counts@, g + 1, 256);
            assert(counts@[g as int] <= i - start);
        }
        let ghost before = counts@;
        let c: usize = counts[g];
        counts[g] = c + 1;
        proof {
            assert(counts@ =~= before.update(g as int, (c + 1) as usize));
            lemma_total_update(before, g as int, (c + 1) as usize, 256);
        }
        i = i + 1;
    }
    Ok(counts)
}

/// What the exchanges of a partition keep: the filled part of each bucket holds its ids, and
/// the range has as many ids of each byte as were counted.
spec fn partitioning(
    s: Seq<u64>,
    next: Seq<usize>,
    counts: Seq<usize>,
    start: int,
    end: int,
    shift: u32,
) -> bool {
    &&& next.len() == 256
    &&& counts.len() == 256
    &&& total(counts, 256) == end - start
    &&& forall|h: int|
        0 <= h < 256 ==> bound(counts, start, h) <= #[trigger] next[h] <= bound(
            counts,
            start,
            h + 1,
        )
    &&& forall|h: int, p: int|
        #![trigger next[h], s[p]]
        0 <= h < 256 && bound(counts, start, h) <= p < next[h] ==> byte(s[p], shift) == h
    &&& forall|h: int|
        0 <= h < 256 ==> #[trigger] counts[h] == tally(s, start, end - start, shift, h)
}

/// The bucket of the id at the next free place of `group` has room.
proof fn lemma_room(
    s: Seq<u64>,
    next: Seq<usize>,
    counts: Seq<usize>,
    start: int,
    end: int,
    shift: u32,
    group: int,
    t: int,
)
    requires
        partitioning(s, next, counts, start, end, shift),
        0 <= start <= end <= s.len(),
        0 <= group < 256,
        0 <= t < 256,
        next[group] < bound(counts, start, group + 1),
        byte(s[next[group] as int], shift) == t,
    ensures
        next[t] < bound(counts, start, t + 1),
        bound(counts, start, t + 1) <= end,
        start <= next[group] < end,
        start <= next[t],
{
    let current = next[group] as int;
    let lo = bound(counts, start, t);
    let hi = next[t] as int;
    lemma_total_monotone(counts, 0, t);
    lemma_total_monotone(counts, 0, group);
    lemma_total_monotone(counts, t + 1, 256);
    lemma_total_monotone(counts, group + 1, 256);
    assert(bound(counts, start, t) <= next[t] <= bound(counts, start, t + 1));
    assert(bound(counts, start, group) <= next[group]);
    assert(!(lo <= current < hi)) by {
        if lo <= current < hi && t != group {
            lemma_one_bucket(counts, start, group, t, current);
        }
    }
    lemma_tally_run(s, start, end - start, shift, t, lo, hi, current);
    assert(counts[t] == tally(s, start, end - start, shift, t));
}

/// One exchange: the id at the next free place of `group` goes to the next free place of its
/// own bucket.
proof fn lemma_exchange(
    s: Seq<u64>,
    next: Seq<usize>,
    counts: Seq<usize>,
    start: int,
    end: int,
    shift: u32,
    group: int,
    t: int,
)
    requires
        partitioning(s, next, counts, start, end, shift),
        0 <= start <= end <= s.len(),
        s.len() <= usize::MAX,
        0 <= group < 256,
        0 <= t < 256,
        next[group] < bound(counts, start, group + 1),
        byte(s[next[group] as int], shift) == t,
    ensures
        ({
            let current = next[group] as int;
            let slot = next[t] as int;
            let after = s.update(current, s[slot]).update(slot, s[current]);
            let filled = next.update(t, (slot + 1) as usize);
            &&& partitioning(after, filled, counts, start, end, shift)
            &&& placed_in(filled, counts, start, 256) == placed_in(next, counts, start, 256) + 1
            &&& same_elements(after.subrange(start, end), s.subrange(start, end))
            &&& forall|p: int| 0 <= p < start || end <= p < s.len() ==> #[trigger] after[p] == s[p]
        }),
{
    let current = next[group] as int;
    let slot = next[t] as int;
    let after = s.update(current, s[slot]).update(slot, s[current]);
    let filled = next.update(t, (slot + 1) as usize);
    lemma_room(s, next, counts, start, end, shift, group, t);
    lemma_placed_update(next, counts, start, t, (slot + 1) as usize, 256);
    assert forall|h: int| 0 <= h < 256 implies #[trigger] counts[h] == tally(
        after,
        start,
        end - start,
        shift,
        h,
    ) by {
        lemma_tally_update(s, start, end - start, shift, h, current, s[slot]);
        lemma_tally_update(
            s.update(current, s[slot]),
            start,
            end - start,
            shift,
            h,
            slot,
            s[current],
        );
        assert(counts[h] == tally(s, start, end - start, shift, h));
    }
    assert forall|h: int, p: int|
        #![trigger filled[h], after[p]]
        0 <= h < 256 && bound(counts, start, h) <= p < filled[h] implies byte(after[p], shift)
        == h by {
        assert(bound(counts, start, h) <= next[h] <= bound(counts, start, h + 1));
        lemma_total_monotone(counts, 0, h);
        lemma_total_monotone(counts, h + 1, 256);
        if p == slot {
            assert(bound(counts, start, t) <= next[t]);
            lemma_one_bucket(counts, start, h, t, p);
        } else if p == current {
            assert(bound(counts, start, group) <= next[group]);
            lemma_one_bucket(counts, start, h, group, p);
            assert(false);
        } else {
            assert(after[p] == s[p]);
            assert(p < next[h]);
            assert(byte(s[p], shift) == h);
        }
    }
    assert forall|h: int| 0 <= h < 256 implies bound(counts, start, h) <= #[trigger] filled[h]
        <= bound(counts, start, h + 1) by {
        assert(bound(counts, start, h) <= next[h] <= bound(counts, start, h + 1));
    }
    let range = s.subrange(start, end);
    lemma_swap_elements(range, current - start, slot - start);
    assert(after.subrange(start, end) =~= range.update(
        current - start,
        range[slot - start],
    ).update(slot - start, range[current - start]));
}

/// Rearranges a range so that its ids stand by their byte, in the order of the bytes.
fn partition<C: CancelCheck>(
    ids: &mut Vec<u64>,
    start: usize,
    end: usize,
    shift: u32,
    counts: &[usize; 256],
    check: &mut C,
) -> (r: Result<(), ShardError>)
    requires
        start <= end <= old(ids).len(),
        shift <= 56,
        forall|g: int|
            0 <= g < 256 ==> #[trigger] counts@[g] == tally(
                old(ids)@,
                start as int,
                end - start,
                shift,
                g,
            ),
        total(counts@, 256) == end - start,
    ensures
        final(ids).len() == old(ids).len(),
        same_elements(
            final(ids)@.subrange(start as int, end as int),
            old(ids)@.subrange(start as int, end as int),
        ),
        forall|p: int|
            0 <= p < start || end <= p < old(ids).len() ==> #[trigger] final(ids)@[p]
                == old(ids)@[p],
        match r {
            Ok(()) => {
                &&& forall|g: int, p: int|
                    #![trigger counts@[g], final(ids)@[p]]
                    0 <= g < 256 && bound(counts@, start as int, g) <= p < bound(
                        counts@,
                        start as int,
                        g + 1,
                    ) ==> byte(final(ids)@[p], shift) == g
                &&& all_clear(old(check).polls(), final(check).polls())
                &&& final(check).polls().len() == old(check).polls().len() + step_polls(
                    (end - start) as nat,
                )
            },
            Err(e) => stopped(old(check).polls(), final(check).polls(), e),
        },
        final(check).polls().len() <= old(check).polls().len() + step_polls((end - start) as nat),
        carried(*old(check), *final(check)),
        old(check).never_refuses() ==> r is Ok,
{
    let mut next = [0usize; 256];
    let mut acc: usize = start;
    let mut g: usize = 0;
    while g < 256
        invariant
            g <= 256,
            start <= end,
            total(counts@, 256) == end - start,
            acc == bound(counts@, start as int, g as int),
            acc <= end,
            forall|h: int| 0 <= h < g ==> #[trigger] next@[h] == bound(counts@, start as int, h),
        decreases 256 - g,
    {
        proof {
            lemma_total_monotone(counts@, g + 1, 256);
        }
        next[g] = acc;
        acc = acc + counts[g];
        g = g + 1;
    }
    proof {
        lemma_placed_none(next@, counts@, start as int, 256);
        assert(check.polls().take(check.polls().len() as int) =~= check.polls());
        lemma_carried_none(*check);
        assert(partitioning(ids@, next@, counts@, start as int, end as int, shift)) by {
            assert forall|h: int| 0 <= h < 256 implies bound(counts@, start as int, h)
                <= #[trigger] next@[h] <= bound(counts@, start as int, h + 1) by {
                lemma_total_monotone(counts@, h, h + 1);
            }
        }
    }
    let mut moves: usize = 0;
    let mut limit: usize = start;
    let mut group: usize = 0;
    while group < 256
        invariant
            group <= 256,
            start <= end <= ids.len(),
            ids.len() == old(ids).len(),
            shift <= 56,
            limit == bound(counts@, start as int, group as int),
            limit <= end,
            partitioning(ids@, next@, counts@, start as int, end as int, shift),
            forall|h: int|
                0 <= h < group ==> #[trigger] next@[h] == bound(counts@, start as int, h + 1),
            moves == placed_in(next@, counts@, start as int, 256),
            same_elements(
                ids@.subrange(start as int, end as int),
                old(ids)@.subrange(start as int, end as int),
            ),
            forall|p: int|
                0 <= p < start || end <= p < old(ids).len() ==> #[trigger] ids@[p]
                    == old(ids)@[p],
            all_clear(old(check).polls(), check.polls()),
            carried(*old(check), *check),
            check.polls().len() == old(check).polls().len() + step_polls(moves as nat),
        decreases 256 - group,
    {
        proof {
            lemma_total_monotone(counts@, group + 1, 256);
        }
        limit = limit + counts[group];
        while next[group] < limit
            invariant
                group < 256,
                start <= end <= ids.len(),
                ids.len() == old(ids).len(),
                shift <= 56,
                limit == bound(counts@, start as int, group + 1),
                partitioning(ids@, next@, counts@, start as int, end as int, shift),
                forall|h: int|
                    0 <= h < group ==> #[trigger] next@[h] == bound(counts@, start as int, h + 1),
                moves == placed_in(next@, counts@, start as int, 256),
                same_elements(
                    ids@.subrange(start as int, end as int),
                    old(ids)@.subrange(start as int, end as int),
                ),
                forall|p: int|
                    0 <= p < start || end <= p < old(ids).len() ==> #[trigger] ids@[p]
                        == old(ids)@[p],
                all_clear(old(check).polls(), check.polls()),
                carried(*old(check), *check),
                check.polls().len() == old(check).polls().len() + step_polls(moves as nat),
            decreases end - start - moves,
        {
            proof {
                lemma_placed_bound(next@, counts@, start as int, group as int, 256);
            }
            if moves % POLL_EVERY == 0 {
                let ghost polls = check.polls();
                let ghost earlier = *check;
                let answer = check.check();
                proof {
                    lemma_clear_step(old(check).polls(), polls, answer);
                    lemma_carried_step(*old(check), earlier, *check, answer);
                }
                match answer {
                    Ok(()) => {},
                    Err(e) => {
                        return Err(e);
                    },
                }
            }
            let current: usize = next[group];
            proof {
                lemma_total_monotone(counts@, group + 1, 256);
                assert(bound(counts@, start as int, group as int) <= next@[group as int]);
            }
            let id: u64 = ids[current];
            let target: usize = bucket(id, shift);
            let slot: usize = next[target];
            proof {
                lemma_room(
                    ids@,
                    next@,
                    counts@,
                    start as int,
                    end as int,
                    shift,
                    group as int,
                    target as int,
                );
                lemma_exchange(
                    ids@,
                    next@,
                    counts@,
                    start as int,
                    end as int,
                    shift,
                    group as int,
                    target as int,
                );
            }
            let ghost before = ids@;
            let ghost next_before = next@;
            let other: u64 = ids[slot];
            ids.set(current, other);
            ids.set(slot, id);
            next[target] = slot + 1;
            moves = moves + 1;
            proof {
                assert(next@ =~= next_before.update(target as int, (slot + 1) as usize));
                assert(ids@ =~= before.update(current as int, before[slot as int]).update(
                    slot as int,
                    before[current as int],
                ));
                assert forall|h: int| 0 <= h < group implies #[trigger] next@[h] == bound(
                    counts@,
                    start as int,
                    h + 1,
                ) by {
                    assert(next_before[h] == bound(counts@, start as int, h + 1));
                }
            }
        }
        assert(bound(counts@, start as int, group as int) <= next@[group as int] <= bound(
            counts@,
            start as int,
            group + 1,
        ));
        group = group + 1;
    }
    proof {
        lemma_placed_full(next@, counts@, start as int, 256);
        assert forall|g: int, p: int|
            #![trigger counts@[g], ids@[p]]
            0 <= g < 256 && bound(counts@, start as int, g) <= p < bound(
                counts@,
                start as int,
                g + 1,
            ) implies byte(ids@[p], shift) == g by {
            assert(next@[g] == bound(counts@, start as int, g + 1));
        }
    }
    Ok(())
}

/// Every place of the range is in some bucket.
proof fn lemma_some_bucket(counts: Seq<usize>, start: int, k: int, p: int) -> (g: int)
    requires
        0 <= k <= counts.len(),
        start <= p < bound(counts, start, k),
    ensures
        0 <= g < k,
        bound(counts, start, g) <= p < bound(counts, start, g + 1),
    decreases k,
{
    if p < bound(counts, start, k - 1) {
        lemma_some_bucket(counts, start, k - 1, p)
    } else {
        k - 1
    }
}

/// Each bucket holds the ids of its byte.
spec fn in_buckets(s: Seq<u64>, counts: Seq<usize>, start: int, shift: u32) -> bool {
    forall|g: int, p: int|
        #![trigger counts[g], s[p]]
        0 <= g < 256 && bound(counts, start, g) <= p < bound(counts, start, g + 1) ==> byte(
            s[p],
            shift,
        ) == g
}

/// Rearranging a range keeps what its ids agree in.
proof fn lemma_agree_rearranged(a: Seq<u64>, b: Seq<u64>, start: int, end: int, shift: u32)
    requires
        a.len() == b.len(),
        0 <= start <= end <= a.len(),
        agree_above(a, start, end, shift),
        same_elements(b.subrange(start, end), a.subrange(start, end)),
    ensures
        agree_above(b, start, end, shift),
{
    let ar = a.subrange(start, end);
    let br = b.subrange(start, end);
    assert forall|i: int, j: int| start <= i < end && start <= j < end implies ((#[trigger] b[i])
        >> shift) >> 8u32 == ((#[trigger] b[j]) >> shift) >> 8u32 by {
        lemma_elements_from(br, ar, i - start);
        lemma_elements_from(br, ar, j - start);
        let x = choose|x: int| 0 <= x < ar.len() && ar[x] == br[i - start];
        let y = choose|y: int| 0 <= y < ar.len() && ar[y] == br[j - start];
        assert(a[start + x] == b[i]);
        assert(a[start + y] == b[j]);
    }
}

/// Rearranging one bucket keeps the buckets.
proof fn lemma_buckets_rearranged(
    a: Seq<u64>,
    b: Seq<u64>,
    counts: Seq<usize>,
    start: int,
    shift: u32,
    g: int,
)
    requires
        counts.len() == 256,
        0 <= start,
        0 <= g < 256,
        a.len() == b.len(),
        bound(counts, start, 256) <= a.len(),
        in_buckets(a, counts, start, shift),
        same_elements(
            b.subrange(bound(counts, start, g), bound(counts, start, g + 1)),
            a.subrange(bound(counts, start, g), bound(counts, start, g + 1)),
        ),
        forall|p: int|
            0 <= p < bound(counts, start, g) || bound(counts, start, g + 1) <= p < a.len()
                ==> #[trigger] b[p] == a[p],
    ensures
        in_buckets(b, counts, start, shift),
{
    let lo = bound(counts, start, g);
    let hi = bound(counts, start, g + 1);
    lemma_total_monotone(counts, 0, g);
    lemma_total_monotone(counts, g + 1, 256);
    assert forall|h: int, p: int|
        #![trigger counts[h], b[p]]
        0 <= h < 256 && bound(counts, start, h) <= p < bound(counts, start, h + 1) implies byte(
        b[p],
        shift,
    ) == h by {
        lemma_total_monotone(counts, 0, h);
        lemma_total_monotone(counts, h + 1, 256);
        if lo <= p < hi {
            lemma_one_bucket(counts, start, g, h, p);
            let ar = a.subrange(lo, hi);
            let br = b.subrange(lo, hi);
            lemma_elements_from(br, ar, p - lo);
            let x = choose|x: int| 0 <= x < ar.len() && ar[x] == br[p - lo];
            assert(a[lo + x] == b[p]);
            assert(byte(a[lo + x], shift) == h) by {
                assert(counts[h] == counts[g]);
            }
        } else {
            assert(b[p] == a[p]);
        }
    }
}

/// Ids of one bucket agree above the next byte.
proof fn lemma_bucket_agrees(
    s: Seq<u64>,
    counts: Seq<usize>,
    start: int,
    end: int,
    shift: u32,
    g: int,
)
    requires
        counts.len() == 256,
        0 <= g < 256,
        0 <= start,
        8 <= shift <= 56,
        bound(counts, start, 256) == end,
        end <= s.len(),
        in_buckets(s, counts, start, shift),
        agree_above(s, start, end, shift),
    ensures
        agree_above(
            s,
            bound(counts, start, g),
            bound(counts, start, g + 1),
            (shift - 8) as u32,
        ),
{
    let lower = (shift - 8) as u32;
    lemma_total_monotone(counts, 0, g);
    lemma_total_monotone(counts, g + 1, 256);
    assert forall|i: int, j: int|
        bound(counts, start, g) <= i < bound(counts, start, g + 1) && bound(counts, start, g) <= j
            < bound(counts, start, g + 1) implies ((#[trigger] s[i]) >> lower) >> 8u32 == ((
    #[trigger] s[j]) >> lower) >> 8u32 by {
        assert(counts[g] == counts[g]);
        assert(byte(s[i], shift) == g && byte(s[j], shift) == g);
        lemma_byte_order(s[i], s[j], shift);
        lemma_next_byte(s[i], shift);
        lemma_next_byte(s[j], shift);
    }
}

/// Ordered buckets make an ordered range.
proof fn lemma_ordered_buckets(
    s: Seq<u64>,
    counts: Seq<usize>,
    start: int,
    end: int,
    shift: u32,
)
    requires
        counts.len() == 256,
        0 <= start,
        shift <= 56,
        bound(counts, start, 256) == end,
        end <= s.len(),
        in_buckets(s, counts, start, shift),
        agree_above(s, start, end, shift),
        forall|g: int|
            0 <= g < 256 ==> ordered(
                s,
                bound(counts, start, g),
                #[trigger] bound(counts, start, g + 1),
            ),
    ensures
        ordered(s, start, end),
{
    assert forall|i: int, j: int| start <= i < j < end implies s[i] <= s[j] by {
        let g = lemma_some_bucket(counts, start, 256, i);
        let h = lemma_some_bucket(counts, start, 256, j);
        if g == h {
            assert(ordered(s, bound(counts, start, g), bound(counts, start, g + 1)));
        } else {
            assert(g < h) by {
                if h < g {
                    lemma_total_monotone(counts, h + 1, g);
                }
            }
            assert(counts[g] == counts[g] && counts[h] == counts[h]);
            assert(byte(s[i], shift) == g);
            assert(byte(s[j], shift) == h);
            lemma_byte_order(s[i], s[j], shift);
        }
    }
}

/// At the lowest byte the ids of one bucket are all the same.
proof fn lemma_last_buckets(s: Seq<u64>, counts: Seq<usize>, start: int, end: int, g: int)
    requires
        counts.len() == 256,
        0 <= start,
        0 <= g < 256,
        bound(counts, start, 256) == end,
        end <= s.len(),
        in_buckets(s, counts, start, 0),
        agree_above(s, start, end, 0),
    ensures
        ordered(s, bound(counts, start, g), bound(counts, start, g + 1)),
{
    lemma_total_monotone(counts, 0, g);
    lemma_total_monotone(counts, g + 1, 256);
    assert forall|i: int, j: int|
        bound(counts, start, g) <= i < j < bound(counts, start, g + 1) implies s[i] <= s[j] by {
        assert(counts[g] == counts[g]);
        assert(byte(s[i], 0) == g && byte(s[j], 0) == g);
        lemma_byte_order(s[i], s[j], 0);
        lemma_last_byte(s[i]);
        lemma_last_byte(s[j]);
    }
}

/// The buckets before `g` are in order; what all of them hold still stands by its byte.
#[verifier::opaque]
spec fn sorted_up_to(
    s: Seq<u64>,
    counts: Seq<usize>,
    start: int,
    end: int,
    shift: u32,
    g: int,
) -> bool {
    &&& in_buckets(s, counts, start, shift)
    &&& agree_above(s, start, end, shift)
    &&& forall|h: int|
        0 <= h < g ==> ordered(
            s,
            bound(counts, start, h),
            #[trigger] bound(counts, start, h + 1),
        )
}

/// Sorting one more bucket.
#[verifier::spinoff_prover]
proof fn lemma_bucket_sorted(
    before: Seq<u64>,
    after: Seq<u64>,
    counts: Seq<usize>,
    start: int,
    end: int,
    shift: u32,
    g: int,
)
    requires
        counts.len() == 256,
        0 <= start <= end <= before.len(),
        after.len() == before.len(),
        bound(counts, start, 256) == end,
        0 <= g < 256,
        sorted_up_to(before, counts, start, end, shift, g),
        same_elements(
            after.subrange(bound(counts, start, g), bound(counts, start, g + 1)),
            before.subrange(bound(counts, start, g), bound(counts, start, g + 1)),
        ),
        forall|p: int|
            0 <= p < bound(counts, start, g) || bound(counts, start, g + 1) <= p < before.len()
                ==> #[trigger] after[p] == before[p],
        ordered(after, bound(counts, start, g), bound(counts, start, g + 1)),
    ensures
        sorted_up_to(after, counts, start, end, shift, g + 1),
        same_elements(after.subrange(start, end), before.subrange(start, end)),
{
    lemma_total_monotone(counts, 0, g);
    lemma_total_monotone(counts, g, g + 1);
    lemma_total_monotone(counts, g + 1, 256);
    assert(same_elements(after.subrange(start, end), before.subrange(start, end))) by {
        lemma_elements_nested(
            after,
            before,
            start,
            end,
            bound(counts, start, g),
            bound(counts, start, g + 1),
        );
    }
    assert(in_buckets(after, counts, start, shift)) by {
        reveal(sorted_up_to);
        lemma_buckets_rearranged(before, after, counts, start, shift, g);
    }
    assert(agree_above(after, start, end, shift)) by {
        reveal(sorted_up_to);
        lemma_agree_rearranged(before, after, start, end, shift);
    }
    assert forall|h: int| 0 <= h < g + 1 implies ordered(
        after,
        bound(counts, start, h),
        #[trigger] bound(counts, start, h + 1),
    ) by {
        if h < g {
            lemma_total_monotone(counts, h + 1, g);
            lemma_total_monotone(counts, 0, h);
            assert(ordered(before, bound(counts, start, h), bound(counts, start, h + 1))) by {
                reveal(sorted_up_to);
            }
        }
    }
    assert(sorted_up_to(after, counts, start, end, shift, g + 1)) by {
        reveal(sorted_up_to);
    }
}

/// A bucket of at most one id is in order.
proof fn lemma_bucket_small(
    s: Seq<u64>,
    counts: Seq<usize>,
    start: int,
    end: int,
    shift: u32,
    g: int,
)
    requires
        0 <= g < counts.len(),
        sorted_up_to(s, counts, start, end, shift, g),
        counts[g] <= 1,
    ensures
        sorted_up_to(s, counts, start, end, shift, g + 1),
{
    reveal(sorted_up_to);
}

/// A bucket holds exactly the ids of the range that have its byte.
#[verifier::spinoff_prover]
proof fn lemma_bucket_elements(
    s: Seq<u64>,
    counts: Seq<usize>,
    start: int,
    end: int,
    shift: u32,
    g: int,
)
    requires
        counts.len() == 256,
        0 <= start <= end <= s.len(),
        0 <= g < 256,
        bound(counts, start, 256) == end,
        in_buckets(s, counts, start, shift),
    ensures
        s.subrange(bound(counts, start, g), bound(counts, start, g + 1)).to_multiset()
            == with_byte(s.subrange(start, end).to_multiset(), shift, g),
{
    broadcast use vstd::multiset::group_multiset_axioms;
    broadcast use vstd::seq_lib::group_to_multiset_ensures;

    let lo = bound(counts, start, g);
    let hi = bound(counts, start, g + 1);
    lemma_total_monotone(counts, 0, g);
    lemma_total_monotone(counts, g, g + 1);
    lemma_total_monotone(counts, g + 1, 256);
    let left = s.subrange(start, lo);
    let mid = s.subrange(lo, hi);
    let right = s.subrange(hi, end);
    assert(s.subrange(start, end) =~= left + (mid + right));
    vstd::seq_lib::lemma_multiset_commutative(left, mid + right);
    vstd::seq_lib::lemma_multiset_commutative(mid, right);
    assert forall|p: int| start <= p < end implies (lo <= p < hi <==> byte(#[trigger] s[p], shift)
        == g) by {
        let h = lemma_some_bucket(counts, start, 256, p);
        assert(counts[h] == counts[h]);
        assert(byte(s[p], shift) == h);
        if lo <= p < hi {
            lemma_one_bucket(counts, start, g, h, p);
        }
    }
    let range = s.subrange(start, end).to_multiset();
    assert forall|x: u64| mid.to_multiset().count(x) == with_byte(range, shift, g).count(x) by {
        assert(range.count(x) == left.to_multiset().count(x) + mid.to_multiset().count(x)
            + right.to_multiset().count(x));
        if byte(x, shift) == g {
            if left.contains(x) {
                let i = choose|i: int| 0 <= i < left.len() && left[i] == x;
                assert(s[start + i] == x);
            }
            if right.contains(x) {
                let i = choose|i: int| 0 <= i < right.len() && right[i] == x;
                assert(s[hi + i] == x);
            }
        } else if mid.contains(x) {
            let i = choose|i: int| 0 <= i < mid.len() && mid[i] == x;
            assert(s[lo + i] == x);
        }
    }
    assert(mid.to_multiset() =~= with_byte(range, shift, g));
}

#[verifier::spinoff_prover]
fn sort_range<C: CancelCheck>(
    ids: &mut Vec<u64>,
    start: usize,
    end: usize,
    shift: u32,
    check: &mut C,
) -> (r: Result<(), ShardError>)
    requires
        start <= end <= old(ids).len(),
        shift <= 56,
        shift % 8 == 0,
        agree_above(old(ids)@, start as int, end as int, shift),
    ensures
        final(ids).len() == old(ids).len(),
        same_elements(
            final(ids)@.subrange(start as int, end as int),
            old(ids)@.subrange(start as int, end as int),
        ),
        forall|p: int|
            0 <= p < start || end <= p < old(ids).len() ==> #[trigger] final(ids)@[p]
                == old(ids)@[p],
        match r {
            Ok(()) => {
                &&& ordered(final(ids)@, start as int, end as int)
                &&& all_clear(old(check).polls(), final(check).polls())
                &&& final(check).polls().len() == old(check).polls().len() + sort_polls(
                    old(ids)@.subrange(start as int, end as int).to_multiset(),
                    shift,
                )
            },
            Err(e) => stopped(old(check).polls(), final(check).polls(), e),
        },
        final(check).polls().len() <= old(check).polls().len() + sort_polls(
            old(ids)@.subrange(start as int, end as int).to_multiset(),
            shift,
        ),
        carried(*old(check), *final(check)),
        old(check).never_refuses() ==> r is Ok,
    decreases shift,
{
    let ghost p0 = check.polls();
    let ghost c0 = *check;
    let ghost whole = ids@.subrange(start as int, end as int).to_multiset();
    let ghost steps = step_polls((end - start) as nat);
    proof {
        assert(p0.take(p0.len() as int) =~= p0);
        lemma_carried_none(c0);
        vstd::seq_lib::to_multiset_len(ids@.subrange(start as int, end as int));
    }
    let answer = check.check();
    proof {
        lemma_clear_step(p0, p0, answer);
        lemma_carried_step(c0, c0, *check, answer);
    }
    let ghost p1 = check.polls();
    let ghost c1 = *check;
    match answer {
        Ok(()) => {},
        Err(e) => {
            return Err(e);
        },
    }
    if end - start <= LEAF {
        sort_leaf(ids, start, end);
        let last = check.check();
        proof {
            lemma_clear_step(p0, p1, last);
            lemma_carried_step(c0, c1, *check, last);
        }
        return last;
    }
    let counts = match count_bytes(ids, start, end, shift, check) {
        Ok(counts) => counts,
        Err(e) => {
            proof {
                lemma_clear_chain(p0, p1, check.polls());
                lemma_carried_chain(c0, c1, *check);
            }
            return Err(e);
        },
    };
    proof {
        lemma_clear_chain(p0, p1, check.polls());
        lemma_carried_chain(c0, c1, *check);
    }
    let ghost p2 = check.polls();
    let ghost c2 = *check;
    match partition(ids, start, end, shift, &counts, check) {
        Ok(()) => {},
        Err(e) => {
            proof {
                lemma_clear_chain(p0, p2, check.polls());
                lemma_carried_chain(c0, c2, *check);
            }
            return Err(e);
        },
    }
    proof {
        lemma_clear_chain(p0, p2, check.polls());
        lemma_carried_chain(c0, c2, *check);
        lemma_agree_rearranged(old(ids)@, ids@, start as int, end as int, shift);
    }
    assert(check.polls().len() == p0.len() + 1 + 2 * steps);
    if shift > 0 {
        let mut lo: usize = start;
        let mut g: usize = 0;
        proof {
            reveal(sorted_up_to);
        }
        while g < 256
            invariant
                g <= 256,
                8 <= shift <= 56,
                shift % 8 == 0,
                start <= end <= ids.len(),
                ids.len() == old(ids).len(),
                total(counts@, 256) == end - start,
                lo == bound(counts@, start as int, g as int),
                lo <= end,
                sorted_up_to(ids@, counts@, start as int, end as int, shift, g as int),
                same_elements(
                    ids@.subrange(start as int, end as int),
                    old(ids)@.subrange(start as int, end as int),
                ),
                forall|p: int|
                    0 <= p < start || end <= p < old(ids).len() ==> #[trigger] ids@[p] == old(
                        ids,
                    )@[p],
                all_clear(p0, check.polls()),
                p0 == old(check).polls(),
                c0 == *old(check),
                carried(c0, *check),
                whole == old(ids)@.subrange(start as int, end as int).to_multiset(),
                whole.len() == end - start,
                whole.len() > LEAF,
                steps == step_polls((end - start) as nat),
                check.polls().len() == p0.len() + 1 + 2 * steps + bucket_polls(
                    whole,
                    shift,
                    g as nat,
                ),
            decreases 256 - g,
        {
            proof {
                lemma_total_monotone(counts@, g + 1, 256);
                lemma_total_monotone(counts@, 0, g as int);
            }
            let count: usize = counts[g];
            proof {
                assert(with_byte(whole, shift, g as int) == ids@.subrange(
                    lo as int,
                    lo + count,
                ).to_multiset()) by {
                    reveal(sorted_up_to);
                    lemma_bucket_elements(
                        ids@,
                        counts@,
                        start as int,
                        end as int,
                        shift,
                        g as int,
                    );
                }
                vstd::seq_lib::to_multiset_len(ids@.subrange(lo as int, lo + count));
                lemma_bucket_polls_grow(whole, shift, (g + 1) as nat, 256);
            }
            if count > 1 {
                let ghost before = ids@;
                let ghost polls = check.polls();
                let ghost earlier = *check;
                proof {
                    reveal(sorted_up_to);
                    lemma_bucket_agrees(
                        ids@,
                        counts@,
                        start as int,
                        end as int,
                        shift,
                        g as int,
                    );
                }
                let answer = sort_range(ids, lo, lo + count, shift - 8, check);
                proof {
                    lemma_clear_chain(p0, polls, check.polls());
                    lemma_carried_chain(c0, earlier, *check);
                    lemma_elements_nested(
                        ids@,
                        before,
                        start as int,
                        end as int,
                        lo as int,
                        lo + count,
                    );
                }
                match answer {
                    Ok(()) => {},
                    Err(e) => {
                        return Err(e);
                    },
                }
                proof {
                    lemma_bucket_sorted(
                        before,
                        ids@,
                        counts@,
                        start as int,
                        end as int,
                        shift,
                        g as int,
                    );
                }
            } else {
                proof {
                    lemma_bucket_small(
                        ids@,
                        counts@,
                        start as int,
                        end as int,
                        shift,
                        g as int,
                    );
                }
            }
            lo = lo + count;
            g = g + 1;
        }
    } else {
        proof {
            reveal(sorted_up_to);
            assert forall|h: int| 0 <= h < 256 implies ordered(
                ids@,
                bound(counts@, start as int, h),
                #[trigger] bound(counts@, start as int, h + 1),
            ) by {
                lemma_last_buckets(ids@, counts@, start as int, end as int, h);
            }
        }
    }
    proof {
        reveal(sorted_up_to);
        lemma_ordered_buckets(ids@, counts@, start as int, end as int, shift);
    }
    let ghost p3 = check.polls();
    let ghost c3 = *check;
    let last = check.check();
    proof {
        lemma_clear_step(p0, p3, last);
        lemma_carried_step(c0, c3, *check, last);
    }
    last
}

/// Sorts ids that agree above the byte at `shift`, in place, from that byte down, in at most one
/// level per byte. From the highest byte down there is nothing to agree in.
///
/// The check is polled at the start and the end of every level, and every 256 counting or
/// partitioning steps; the first refusal ends the sort with that error, and the ids are then
/// in some order. How often it is polled depends on the ids alone, not on their order; where it
/// is fixed which poll is refused, the sort ends with that poll if it comes to it.
pub fn sort_ids<C: CancelCheck>(ids: &mut Vec<u64>, shift: u32, check: &mut C) -> (r: Result<
    (),
    ShardError,
>)
    requires
        shift <= 56,
        shift % 8 == 0,
        shift < 56 ==> agree_above(old(ids)@, 0, old(ids).len() as int, shift),
    ensures
        same_elements(final(ids)@, old(ids)@),
        match r {
            Ok(()) => {
                &&& ordered(final(ids)@, 0, final(ids).len() as int)
                &&& all_clear(old(check).polls(), final(check).polls())
                &&& final(check).polls().len() == old(check).polls().len() + sort_polls(
                    old(ids)@.to_multiset(),
                    shift,
                )
            },
            Err(e) => {
                &&& stopped(old(check).polls(), final(check).polls(), e)
                &&& refuses_with(old(check).refusal(), e)
            },
        },
        final(check).polls().len() <= old(check).polls().len() + sort_polls(
            old(ids)@.to_multiset(),
            shift,
        ),
        carried(*old(check), *final(check)),
        old(check).never_refuses() ==> r is Ok,
        old(check).refused_poll() matches Some(n) ==> {
            &&& r is Err <==> old(check).polls().len() <= n < old(check).polls().len()
                + sort_polls(old(ids)@.to_multiset(), shift)
            &&& r is Err ==> final(check).polls().len() == n + 1
        },
{
    let end: usize = ids.len();
    proof {
        if shift == 56 {
            lemma_highest_byte(ids@);
        }
    }
    let r = sort_range(ids, 0, end, shift, check);
    proof {
        assert(ids@.subrange(0, end as int) =~= ids@);
        assert(old(ids)@.subrange(0, end as int) =~= old(ids)@);
        if r is Err {
            lemma_stopped_with(*old(check), *check, r->Err_0);
        }
        if check.refused_poll() is Some {
            lemma_stops_when_due(
                *old(check),
                *check,
                sort_polls(old(ids)@.to_multiset(), shift),
                if r is Err {
                    Some(r->Err_0)
                } else {
                    None
                },
            );
        }
    }
    r
}

/// From the highest byte there is nothing above to agree in.
proof fn lemma_highest_byte(s: Seq<u64>)
    ensures
        agree_above(s, 0, s.len() as int, 56),
{
    assert forall|i: int, j: int| 0 <= i < s.len() && 0 <= j < s.len() implies ((#[trigger] s[i])
        >> 56u32) >> 8u32 == ((#[trigger] s[j]) >> 56u32) >> 8u32 by {
        let a = s[i];
        let b = s[j];
        assert((a >> 56u32) >> 8u32 == 0) by (bit_vector);
        assert((b >> 56u32) >> 8u32 == 0) by (bit_vector);
    }
}

// ---- Uniqueness ----------------------------------------------------------------------------

/// No id stands beside an equal one.
pub open spec fn no_equal_neighbours(s: Seq<u64>) -> bool {
    forall|i: int| 0 <= i < s.len() - 1 ==> #[trigger] s[i] != s[i + 1]
}

/// The first pair of equal neighbours is at `i`.
pub open spec fn first_equal_at(s: Seq<u64>, i: int) -> bool {
    &&& 0 <= i < s.len() - 1
    &&& s[i] == s[i + 1]
    &&& forall|j: int| 0 <= j < i ==> #[trigger] s[j] != s[j + 1]
}

/// Where the first pair of equal neighbours is.
pub open spec fn first_equal(s: Seq<u64>) -> int {
    choose|i: int| first_equal_at(s, i)
}

/// The polls that comparing ids with their neighbours takes: those of the pairs up to the first
/// equal one; or, where there is none, those of all pairs and one at the end.
pub open spec fn unique_polls(s: Seq<u64>) -> nat {
    if !no_equal_neighbours(s) {
        step_polls((first_equal(s) + 1) as nat)
    } else if s.len() > 0 {
        step_polls((s.len() - 1) as nat) + 1
    } else {
        1
    }
}

/// Some pair of equal neighbours is the first, and no other pair is.
proof fn lemma_first_equal(s: Seq<u64>, i: int)
    requires
        0 <= i < s.len() - 1,
        s[i] == s[i + 1],
    ensures
        first_equal_at(s, first_equal(s)),
        first_equal(s) <= i,
        first_equal_at(s, i) ==> first_equal(s) == i,
    decreases i,
{
    if exists|j: int| 0 <= j < i && #[trigger] s[j] == s[j + 1] {
        let j = choose|j: int| 0 <= j < i && #[trigger] s[j] == s[j + 1];
        lemma_first_equal(s, j);
        assert(s[j] == s[j + 1]);
    } else {
        assert(first_equal_at(s, i));
        let f = first_equal(s);
        assert(first_equal_at(s, f));
        if f > i {
            assert(s[i] != s[i + 1]);
        }
        if f < i {
            assert(s[f] == s[f + 1]);
        }
    }
}

/// The first `i` pairs, and one more where there is one, take no more polls than all that are
/// compared.
proof fn lemma_pairs_polls(s: Seq<u64>, i: int)
    requires
        0 <= i < s.len() - 1,
        forall|j: int| 0 <= j < i ==> #[trigger] s[j] != s[j + 1],
    ensures
        step_polls((i + 1) as nat) <= unique_polls(s),
{
    if !no_equal_neighbours(s) {
        let k = choose|k: int| 0 <= k < s.len() - 1 && #[trigger] s[k] == s[k + 1];
        lemma_first_equal(s, k);
        let f = first_equal(s);
        assert(i <= f) by {
            if f < i {
                assert(s[f] != s[f + 1]);
            }
        }
    }
}

/// Refuses ids of which two neighbours are equal. The check is polled every 256 pairs and at
/// the end; the first refusal ends the work with that error, and so does the first pair of
/// equal neighbours.
pub fn validate_unique<C: CancelCheck>(ids: &[u64], check: &mut C) -> (r: Result<(), ShardError>)
    ensures
        match r {
            Ok(()) => {
                &&& no_equal_neighbours(ids@)
                &&& all_clear(old(check).polls(), final(check).polls())
                &&& final(check).polls().len() == old(check).polls().len() + unique_polls(ids@)
            },
            Err(e) => {
                ||| {
                    &&& stopped(old(check).polls(), final(check).polls(), e)
                    &&& !old(check).never_refuses()
                    &&& refuses_with(old(check).refusal(), e)
                }
                ||| {
                    &&& e == ShardError::Protocol(ProtocolFault::DuplicateRows)
                    &&& !no_equal_neighbours(ids@)
                    &&& all_clear(old(check).polls(), final(check).polls())
                    &&& final(check).polls().len() == old(check).polls().len() + unique_polls(ids@)
                }
            },
        },
        final(check).polls().len() <= old(check).polls().len() + unique_polls(ids@),
        carried(*old(check), *final(check)),
        old(check).refused_poll() matches Some(n) ==> if old(check).polls().len() <= n < old(
            check,
        ).polls().len() + unique_polls(ids@) {
            &&& r matches Err(e) && stopped(old(check).polls(), final(check).polls(), e)
            &&& final(check).polls().len() == n + 1
        } else {
            all_clear(old(check).polls(), final(check).polls())
        },
{
    proof {
        assert(check.polls().take(check.polls().len() as int) =~= check.polls());
        lemma_carried_none(*check);
    }
    let mut i: usize = 0;
    while ids.len() > 0 && i < ids.len() - 1
        invariant
            i < ids@.len() || i == 0,
            forall|j: int| 0 <= j < i ==> #[trigger] ids@[j] != ids@[j + 1],
            all_clear(old(check).polls(), check.polls()),
            carried(*old(check), *check),
            check.polls().len() == old(check).polls().len() + step_polls(i as nat),
        decreases ids@.len() - i,
    {
        proof {
            lemma_pairs_polls(ids@, i as int);
        }
        if i % POLL_EVERY == 0 {
            let ghost polls = check.polls();
            let ghost earlier = *check;
            let answer = check.check();
            proof {
                lemma_clear_step(old(check).polls(), polls, answer);
                lemma_carried_step(*old(check), earlier, *check, answer);
            }
            match answer {
                Ok(()) => {},
                Err(e) => {
                    proof {
                        lemma_stopped_with(*old(check), *check, e);
                        if check.refused_poll() is Some {
                            lemma_stops_when_due(
                                *old(check),
                                *check,
                                unique_polls(ids@),
                                Some(e),
                            );
                        }
                    }
                    return Err(e);
                },
            }
        }
        if ids[i] == ids[i + 1] {
            proof {
                assert(first_equal_at(ids@, i as int));
                lemma_first_equal(ids@, i as int);
                if check.refused_poll() is Some {
                    lemma_stops_when_due(*old(check), *check, unique_polls(ids@), None);
                }
            }
            return Err(ShardError::Protocol(ProtocolFault::DuplicateRows));
        }
        i = i + 1;
    }
    let ghost polls = check.polls();
    let ghost earlier = *check;
    let last = check.check();
    proof {
        lemma_clear_step(old(check).polls(), polls, last);
        lemma_carried_step(*old(check), earlier, *check, last);
        if last is Err {
            lemma_stopped_with(*old(check), *check, last->Err_0);
        }
        if check.refused_poll() is Some {
            lemma_stops_when_due(
                *old(check),
                *check,
                unique_polls(ids@),
                if last is Err {
                    Some(last->Err_0)
                } else {
                    None
                },
            );
        }
    }
    last
}

/// Ordered ids without equal neighbours strictly increase.
pub open spec fn increasing(s: Seq<u64>) -> bool {
    forall|i: int, j: int| 0 <= i < j < s.len() ==> s[i] < s[j]
}

proof fn lemma_increasing(s: Seq<u64>)
    requires
        ordered(s, 0, s.len() as int),
        no_equal_neighbours(s),
    ensures
        increasing(s),
{
    assert forall|i: int, j: int| 0 <= i < j < s.len() implies s[i] < s[j] by {
        assert(s[i] <= s[i + 1]);
        assert(s[i] != s[i + 1]);
        assert(s[i + 1] <= s[j]);
    }
}

/// Ordered ids with equal neighbours name some id twice, and so does any other order of them.
proof fn lemma_not_unique(s: Seq<u64>, rows: Seq<u64>)
    requires
        same_elements(s, rows),
        !no_equal_neighbours(s),
    ensures
        !rows.no_duplicates(),
{
    broadcast use vstd::seq_lib::group_to_multiset_ensures;

    if rows.no_duplicates() {
        rows.lemma_multiset_has_no_duplicates();
        s.lemma_multiset_has_no_duplicates_conv();
        let i = choose|i: int| 0 <= i < s.len() - 1 && #[trigger] s[i] == s[i + 1];
        assert(s[i] != s[i + 1]);
    }
}

proof fn lemma_unique(s: Seq<u64>, rows: Seq<u64>)
    requires
        same_elements(s, rows),
        increasing(s),
    ensures
        rows.no_duplicates(),
{
    broadcast use vstd::seq_lib::group_to_multiset_ensures;

    assert(s.no_duplicates());
    s.lemma_multiset_has_no_duplicates();
    rows.lemma_multiset_has_no_duplicates_conv();
}

// ---- The snapshot --------------------------------------------------------------------------

/// `Vec::try_reserve_exact`: makes room for `additional` more elements, or says why it could
/// not. The elements are kept either way. Room for nothing more is always there, since a vector
/// has room for what it holds, and a count of elements that overflows is an error; for the rest,
/// whether there is room is the allocator's to say.
#[verifier::external_body]
fn try_reserve_exact(ids: &mut Vec<u64>, additional: usize) -> (r: Result<(), TryReserveError>)
    ensures
        final(ids)@ == old(ids)@,
        additional == 0 ==> r is Ok,
        old(ids)@.len() + additional > usize::MAX ==> r is Err,
{
    ids.try_reserve_exact(additional)
}

/// What came of making room, with the text of a failure.
pub(crate) fn described(room: Result<(), TryReserveError>) -> (r: Result<(), String>)
    ensures
        match room {
            Ok(()) => r is Ok,
            Err(error) => r matches Err(detail) && to_string_from_display_ensures::<
                TryReserveError,
            >(&error, detail),
        },
{
    match room {
        Ok(()) => Ok(()),
        Err(error) => Err(error.to_string()),
    }
}

/// The text is that of a failure to make room.
pub open spec fn tells_of_no_room(detail: String) -> bool {
    exists|error: TryReserveError| #[trigger]
        to_string_from_display_ensures::<TryReserveError>(&error, detail)
}

/// Makes room for exactly `additional` more ids, or says in the words of the failure why there
/// is none. Room for nothing more is always there, and more ids than can be counted never fit.
pub(crate) fn reserve_exact(ids: &mut Vec<u64>, additional: usize) -> (r: Result<(), String>)
    ensures
        final(ids)@ == old(ids)@,
        additional == 0 ==> r is Ok,
        old(ids)@.len() + additional > usize::MAX ==> r is Err,
        r matches Err(detail) ==> tells_of_no_room(detail),
{
    described(try_reserve_exact(ids, additional))
}

/// The rows in order.
pub open spec fn in_order(rows: Seq<u64>) -> Seq<u64> {
    rows.sort_by(|a: u64, b: u64| a <= b)
}

/// Ordered ids are the rows in order, where they have the same elements.
proof fn lemma_in_order(ids: Seq<u64>, rows: Seq<u64>)
    requires
        ordered(ids, 0, ids.len() as int),
        same_elements(ids, rows),
    ensures
        ids == in_order(rows),
{
    let leq = |a: u64, b: u64| a <= b;
    rows.lemma_sort_by_ensures(leq);
    vstd::seq_lib::lemma_sorted_unique(ids, in_order(rows), leq);
}

/// What comes of the rows of a shard whose index counts `live` of them: the sorted ids, or the
/// first fault. The sort comes first; whether a row is missing is looked at next, and whether one
/// is there twice last. Every poll of this is counted; a refused one ends the work with its
/// error.
pub open spec fn checked_ids<C: CancelCheck>(
    live: usize,
    rows: Seq<u64>,
    before: C,
    after: C,
    r: Result<Vec<u64>, ShardError>,
) -> bool {
    let whole = before.polls().len() + sort_polls(rows.to_multiset(), 56) + if rows.len() == live {
        unique_polls(in_order(rows))
    } else {
        0
    };
    &&& match r {
        Ok(ids) => {
            &&& increasing(ids@)
            &&& same_elements(ids@, rows)
            &&& rows.no_duplicates()
            &&& rows.len() == live
            &&& all_clear(before.polls(), after.polls())
            &&& after.polls().len() == whole
        },
        Err(e) => {
            ||| {
                &&& stopped(before.polls(), after.polls(), e)
                &&& !before.never_refuses()
                &&& refuses_with(before.refusal(), e)
            }
            ||| {
                &&& all_clear(before.polls(), after.polls())
                &&& after.polls().len() == whole
                &&& rows.len() != live
                &&& e == ShardError::Protocol(ProtocolFault::MissingRows)
            }
            ||| {
                &&& all_clear(before.polls(), after.polls())
                &&& after.polls().len() == whole
                &&& rows.len() == live
                &&& !rows.no_duplicates()
                &&& e == ShardError::Protocol(ProtocolFault::DuplicateRows)
            }
        },
    }
    &&& carried(before, after)
    &&& after.polls().len() <= whole
    &&& before.refused_poll() matches Some(n) ==> if before.polls().len() <= n < whole {
        &&& r matches Err(e) && stopped(before.polls(), after.polls(), e)
        &&& after.polls().len() == n + 1
    } else {
        all_clear(before.polls(), after.polls())
    }
}

/// The ids of one shard, being read from its index.
pub struct IdSnapshot {
    live: usize,
    ids: Vec<u64>,
}

impl IdSnapshot {
    /// How many ids the index said it holds.
    pub closed spec fn live(&self) -> usize {
        self.live
    }

    /// The ids read so far.
    pub closed spec fn ids(&self) -> Seq<u64> {
        self.ids@
    }

    /// A snapshot of `live` ids, where that many may be enumerated and can be allocated. A
    /// snapshot of no ids needs no room.
    pub fn begin(live: usize, max_ids: usize) -> (r: Result<Self, ShardError>)
        ensures
            match r {
                Ok(snapshot) => {
                    &&& live <= max_ids
                    &&& snapshot.live() == live
                    &&& snapshot.ids() == Seq::<u64>::empty()
                },
                Err(ShardError::Config(fault)) => if live > max_ids {
                    fault == (ConfigFault::TooManyIds { live: live as u64, limit: max_ids as u64 })
                } else {
                    &&& fault matches ConfigFault::SnapshotAllocation { detail }
                    &&& live > 0
                    &&& tells_of_no_room(detail)
                },
                Err(_) => false,
            },
    {
        if live > max_ids {
            return Err(
                ShardError::Config(
                    ConfigFault::TooManyIds { live: live as u64, limit: max_ids as u64 },
                ),
            );
        }
        let mut ids: Vec<u64> = Vec::new();
        let room = reserve_exact(&mut ids, live);
        Self::with_room(live, ids, room)
    }

    /// The snapshot that starts with `ids`, given what came of making room for it.
    pub fn with_room(live: usize, ids: Vec<u64>, room: Result<(), String>) -> (r: Result<
        Self,
        ShardError,
    >)
        ensures
            match room {
                Ok(()) => r matches Ok(snapshot) && snapshot.live() == live && snapshot.ids()
                    == ids@,
                Err(detail) => r == Err::<IdSnapshot, ShardError>(
                    ShardError::Config(ConfigFault::SnapshotAllocation { detail }),
                ),
            },
    {
        match room {
            Ok(()) => Ok(IdSnapshot { live, ids }),
            Err(detail) => Err(ShardError::Config(ConfigFault::SnapshotAllocation { detail })),
        }
    }

    /// Takes one more id from the index.
    pub fn accept(&mut self, id: u64) -> (r: Result<(), ShardError>)
        ensures
            final(self).live() == old(self).live(),
            match r {
                Ok(()) => {
                    &&& old(self).ids().len() < old(self).live()
                    &&& final(self).ids() == old(self).ids().push(id)
                },
                Err(e) => {
                    &&& old(self).ids().len() >= old(self).live()
                    &&& e == ShardError::Protocol(ProtocolFault::CountChanged)
                    &&& final(self).ids() == old(self).ids()
                },
            },
    {
        if self.ids.len() >= self.live {
            return Err(ShardError::Protocol(ProtocolFault::CountChanged));
        }
        self.ids.push(id);
        Ok(())
    }

    /// The ids in increasing order, once the index has given all it has.
    pub fn finish<C: CancelCheck>(self, check: &mut C) -> (r: Result<Vec<u64>, ShardError>)
        ensures
            checked_ids(self.live(), self.ids(), *old(check), *final(check), r),
    {
        broadcast use vstd::seq_lib::group_to_multiset_ensures;

        let live: usize = self.live;
        let ghost rows = self.ids@;
        let ghost c0 = *check;
        let mut ids = self.ids;
        match sort_ids(&mut ids, 56, check) {
            Ok(()) => {},
            Err(e) => {
                return Err(e);
            },
        }
        assert(ids@.to_multiset().len() == ids@.len());
        assert(rows.to_multiset().len() == rows.len());
        if ids.len() != live {
            return Err(ShardError::Protocol(ProtocolFault::MissingRows));
        }
        proof {
            lemma_in_order(ids@, rows);
        }
        let ghost c1 = *check;
        let checked = validate_unique(ids.as_slice(), check);
        proof {
            lemma_clear_chain(c0.polls(), c1.polls(), check.polls());
            lemma_carried_chain(c0, c1, *check);
        }
        match checked {
            Ok(()) => {
                proof {
                    lemma_increasing(ids@);
                    lemma_unique(ids@, rows);
                }
                Ok(ids)
            },
            Err(e) => {
                proof {
                    if !no_equal_neighbours(ids@) {
                        lemma_not_unique(ids@, rows);
                    }
                }
                Err(e)
            },
        }
    }
}

/// The ids of a shard whose index counts `live` of them and gives out `rows`, given what came of
/// making room for them: a vector to hold them, which is emptied first, or the text of the
/// failure.
pub fn scan_with_room<C: CancelCheck>(
    live: usize,
    rows: &Vec<u64>,
    room: Result<Vec<u64>, String>,
    check: &mut C,
) -> (r: Result<Vec<u64>, ShardError>)
    ensures
        match room {
            Err(detail) => {
                &&& r == Err::<Vec<u64>, ShardError>(
                    ShardError::Config(ConfigFault::SnapshotAllocation { detail }),
                )
                &&& *final(check) == *old(check)
            },
            Ok(_) => if rows.len() > live {
                &&& r == Err::<Vec<u64>, ShardError>(
                    ShardError::Protocol(ProtocolFault::CountChanged),
                )
                &&& *final(check) == *old(check)
            } else {
                checked_ids(live, rows@, *old(check), *final(check), r)
            },
        },
{
    let mut ids = match room {
        Ok(ids) => ids,
        Err(detail) => {
            return Err(ShardError::Config(ConfigFault::SnapshotAllocation { detail }));
        },
    };
    ids.clear();
    let mut snapshot = IdSnapshot { live, ids };
    let mut i: usize = 0;
    while i < rows.len()
        invariant
            i <= rows.len(),
            i <= live,
            snapshot.live() == live,
            snapshot.ids() == rows@.take(i as int),
            room is Ok,
            *check == *old(check),
        decreases rows.len() - i,
    {
        match snapshot.accept(rows[i]) {
            Ok(()) => {},
            Err(e) => {
                return Err(e);
            },
        }
        i = i + 1;
        assert(snapshot.ids() =~= rows@.take(i as int));
    }
    assert(rows@.take(i as int) =~= rows@);
    snapshot.finish(check)
}

/// The ids of a shard whose index counts `live` of them and gives out `rows`, in increasing
/// order. An index that gives out another number of rows, or one id twice, is refused, and
/// so is a count over the limit. A shard without ids needs no room, so that none can be wanting.
pub fn bounded_live_logical_ids<C: CancelCheck>(
    live: usize,
    rows: &Vec<u64>,
    max_ids: usize,
    check: &mut C,
) -> (r: Result<Vec<u64>, ShardError>)
    ensures
        if live > max_ids {
            &&& r == Err::<Vec<u64>, ShardError>(
                ShardError::Config(
                    ConfigFault::TooManyIds { live: live as u64, limit: max_ids as u64 },
                ),
            )
            &&& *final(check) == *old(check)
        } else {
            ||| {
                &&& live > 0
                &&& r matches Err(ShardError::Config(ConfigFault::SnapshotAllocation { detail }))
                &&& tells_of_no_room(detail)
                &&& *final(check) == *old(check)
            }
            ||| {
                &&& rows.len() > live
                &&& r == Err::<Vec<u64>, ShardError>(
                    ShardError::Protocol(ProtocolFault::CountChanged),
                )
                &&& *final(check) == *old(check)
            }
            ||| rows.len() <= live && checked_ids(live, rows@, *old(check), *final(check), r)
        },
{
    if live > max_ids {
        return Err(
            ShardError::Config(
                ConfigFault::TooManyIds { live: live as u64, limit: max_ids as u64 },
            ),
        );
    }
    let mut ids: Vec<u64> = Vec::new();
    let room = match reserve_exact(&mut ids, live) {
        Ok(()) => Ok(ids),
        Err(detail) => Err(detail),
    };
    scan_with_room(live, rows, room, check)
}

} // verus!
