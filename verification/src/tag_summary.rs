//! Immutable tag summaries of sealed segments.
//!
//! A summary is the sorted union of every tag stored in one segment. It can prove that a
//! request predicate accepts no row of the segment, when some group of the predicate has no
//! member in the union. It says nothing about which tags occur together: where it is
//! inconclusive it fails open, and the check of each row decides.

use vstd::prelude::*;

use crate::keyed::{Keyed, lemma_sorted, sort_by_key, sorted_by_key, views};

verus! {

/// The bytes of one tag id.
pub const TAG_ID_BYTES: usize = 4;

/// In increasing order, each once.
pub open spec fn tags_increasing(s: Seq<u32>) -> bool {
    forall|i: int, j: int| 0 <= i < j < s.len() ==> s[i] < s[j]
}

/// In order.
pub open spec fn tags_ordered(s: Seq<u32>) -> bool {
    forall|i: int, j: int| 0 <= i < j < s.len() ==> s[i] <= s[j]
}

/// Two sets of tags have one in common.
pub open spec fn intersect(a: Seq<u32>, b: Seq<u32>) -> bool {
    exists|t: u32| #[trigger] a.contains(t) && b.contains(t)
}

/// A row passes a predicate: it has a tag of every group.
pub open spec fn accepts(groups: Seq<Seq<u32>>, tags: Seq<u32>) -> bool {
    forall|g: int| 0 <= g < groups.len() ==> intersect(tags, #[trigger] groups[g])
}

/// The first index of ordered tags whose tag is not below `tag`.
fn lower_bound(tags: &Vec<u32>, tag: u32) -> (r: usize)
    requires
        tags_ordered(tags@),
    ensures
        r <= tags.len(),
        forall|i: int| 0 <= i < r ==> tags@[i] < tag,
        forall|i: int| r <= i < tags.len() ==> tags@[i] >= tag,
{
    let mut lo: usize = 0;
    let mut hi: usize = tags.len();
    while lo < hi
        invariant
            lo <= hi <= tags.len(),
            tags_ordered(tags@),
            forall|i: int| 0 <= i < lo ==> tags@[i] < tag,
            forall|i: int| hi <= i < tags.len() ==> tags@[i] >= tag,
        decreases hi - lo,
    {
        let mid: usize = lo + (hi - lo) / 2;
        if tags[mid] < tag {
            assert forall|i: int| 0 <= i < mid + 1 implies tags@[i] < tag by {
                if i < mid {
                    assert(tags@[i] <= tags@[mid as int]);
                }
            }
            lo = mid + 1;
        } else {
            assert forall|i: int| mid <= i < tags.len() implies tags@[i] >= tag by {
                if mid < i {
                    assert(tags@[mid as int] <= tags@[i]);
                }
            }
            hi = mid;
        }
    }
    lo
}

/// Whether ordered tags have `tag` among them.
fn has_tag(tags: &Vec<u32>, tag: u32) -> (r: bool)
    requires
        tags_ordered(tags@),
    ensures
        r == tags@.contains(tag),
{
    let i: usize = lower_bound(tags, tag);
    if i < tags.len() && tags[i] == tag {
        assert(tags@[i as int] == tag);
        return true;
    }
    assert(!tags@.contains(tag)) by {
        if tags@.contains(tag) {
            let j = choose|j: int| 0 <= j < tags@.len() && tags@[j] == tag;
            if j > i {
                assert(tags@[i as int] <= tags@[j]);
            }
        }
    }
    false
}

/// Whether two ordered sets of tags have one in common. The smaller one is walked, and each of
/// its tags is searched in the larger one.
pub fn sorted_intersects(a: &Vec<u32>, b: &Vec<u32>) -> (r: bool)
    requires
        tags_ordered(a@),
        tags_ordered(b@),
    ensures
        r == intersect(a@, b@),
{
    if a.len() <= b.len() {
        any_in(a, b)
    } else {
        let r = any_in(b, a);
        proof {
            if intersect(a@, b@) {
                let t = choose|t: u32| #[trigger] a@.contains(t) && b@.contains(t);
                assert(b@.contains(t) && a@.contains(t));
            }
            if intersect(b@, a@) {
                let t = choose|t: u32| #[trigger] b@.contains(t) && a@.contains(t);
                assert(a@.contains(t) && b@.contains(t));
            }
        }
        r
    }
}

fn any_in(small: &Vec<u32>, large: &Vec<u32>) -> (r: bool)
    requires
        tags_ordered(large@),
    ensures
        r == intersect(small@, large@),
{
    let mut i: usize = 0;
    while i < small.len()
        invariant
            i <= small.len(),
            tags_ordered(large@),
            forall|j: int| 0 <= j < i ==> !large@.contains(#[trigger] small@[j]),
        decreases small.len() - i,
    {
        let tag: u32 = small[i];
        if has_tag(large, tag) {
            assert(small@.contains(tag));
            return true;
        }
        i = i + 1;
    }
    assert(!intersect(small@, large@)) by {
        if intersect(small@, large@) {
            let t = choose|t: u32| #[trigger] small@.contains(t) && large@.contains(t);
            let j = choose|j: int| 0 <= j < small@.len() && small@[j] == t;
            assert(!large@.contains(small@[j]));
        }
    }
    false
}

// ---- Predicates ----------------------------------------------------------------------------

/// A request predicate: AND across groups, OR within each group.
#[derive(Debug, PartialEq, Eq)]
pub struct TagPredicate {
    groups: Vec<Vec<u32>>,
}

impl View for TagPredicate {
    type V = Seq<Seq<u32>>;

    closed spec fn view(&self) -> Seq<Seq<u32>> {
        views(self.groups@)
    }
}

/// The groups with the tags of each in order.
pub open spec fn ordered_groups(groups: Seq<Seq<u32>>) -> Seq<Seq<u32>> {
    groups.map_values(|g: Seq<u32>| sorted_by_key::<u32>(g))
}

/// Sorting tags puts them in order and keeps them.
proof fn lemma_sorted_tags(s: Seq<u32>)
    ensures
        tags_ordered(sorted_by_key::<u32>(s)),
        forall|t: u32| #[trigger] sorted_by_key::<u32>(s).contains(t) <==> s.contains(t),
{
    lemma_sorted::<u32>(s);
    let sorted = sorted_by_key::<u32>(s);
    assert forall|i: int, j: int| 0 <= i < j < sorted.len() implies sorted[i] <= sorted[j] by {
        assert(u32::key_of(sorted[i]) <= u32::key_of(sorted[j]));
    }
}

impl TagPredicate {
    /// What every predicate keeps: the tags of each group are in order.
    #[verifier::type_invariant]
    spec fn groups_in_order(self) -> bool {
        forall|g: int| 0 <= g < self.groups@.len() ==> tags_ordered((#[trigger] self.groups@[g])@)
    }

    /// A predicate of the given groups.
    pub fn new(groups: Vec<Vec<u32>>) -> (r: Self)
        ensures
            r@ == ordered_groups(views(groups@)),
    {
        let ghost all = views(groups@);
        let mut ordered: Vec<Vec<u32>> = Vec::new();
        for group in it: groups
            invariant
                all == views(it.seq()),
                ordered.len() == it.index(),
                forall|g: int|
                    0 <= g < ordered.len() ==> (#[trigger] ordered@[g])@ == sorted_by_key::<u32>(
                        all[g],
                    ),
                forall|g: int| 0 <= g < ordered.len() ==> tags_ordered((#[trigger] ordered@[g])@),
        {
            proof {
                assert(views(group@) =~= group@);
                lemma_sorted_tags(group@);
            }
            let sorted = sort_by_key(group);
            assert(views(sorted@) =~= sorted@);
            ordered.push(sorted);
        }
        let r = TagPredicate { groups: ordered };
        assert(r@ =~= ordered_groups(all));
        r
    }

    /// The predicate that every row passes.
    pub fn empty() -> (r: Self)
        ensures
            r@ == Seq::<Seq<u32>>::empty(),
    {
        let r = TagPredicate { groups: Vec::new() };
        assert(r@ =~= Seq::<Seq<u32>>::empty());
        r
    }

    /// The groups.
    pub fn groups(&self) -> (r: &Vec<Vec<u32>>)
        ensures
            views(r@) == self@,
    {
        &self.groups
    }
}

/// Ordering the tags of the groups does not change what they accept.
pub proof fn lemma_ordered_groups_accept(groups: Seq<Seq<u32>>, tags: Seq<u32>)
    ensures
        accepts(ordered_groups(groups), tags) == accepts(groups, tags),
{
    assert forall|g: int| 0 <= g < groups.len() implies intersect(
        tags,
        #[trigger] ordered_groups(groups)[g],
    ) == intersect(tags, groups[g]) by {
        lemma_sorted_tags(groups[g]);
        let sorted = sorted_by_key::<u32>(groups[g]);
        assert(ordered_groups(groups)[g] == sorted);
        if intersect(tags, sorted) {
            let t = choose|t: u32| #[trigger] tags.contains(t) && sorted.contains(t);
            assert(tags.contains(t) && groups[g].contains(t));
        }
        if intersect(tags, groups[g]) {
            let t = choose|t: u32| #[trigger] tags.contains(t) && groups[g].contains(t);
            assert(tags.contains(t) && sorted.contains(t));
        }
    }
    if accepts(ordered_groups(groups), tags) {
        assert forall|g: int| 0 <= g < groups.len() implies intersect(
            tags,
            #[trigger] groups[g],
        ) by {
            assert(intersect(tags, ordered_groups(groups)[g]));
        }
    }
    if accepts(groups, tags) {
        let og = ordered_groups(groups);
        assert forall|g: int| 0 <= g < og.len() implies intersect(tags, #[trigger] og[g]) by {
            assert(intersect(tags, groups[g]));
        }
    }
}

// ---- Summaries -----------------------------------------------------------------------------

/// The distinct tags of one segment.
#[derive(Debug, PartialEq, Eq)]
pub struct TagSummary {
    ids: Vec<u32>,
}

impl View for TagSummary {
    type V = Seq<u32>;

    closed spec fn view(&self) -> Seq<u32> {
        self.ids@
    }
}

impl Clone for TagSummary {
    fn clone(&self) -> (r: Self)
        ensures
            r@ == self@,
    {
        proof {
            use_type_invariant(self);
        }
        let ids = self.ids.clone();
        assert(ids@ =~= self.ids@);
        TagSummary { ids }
    }
}

impl TagSummary {
    /// What every summary keeps: its tags in increasing order.
    #[verifier::type_invariant]
    spec fn in_order(self) -> bool {
        tags_increasing(self.ids@)
    }

    /// The exact union of a segment's tags. The blob is walked once; what is kept meanwhile
    /// grows with the distinct tags, not with the rows.
    pub fn build(tag_blob: &[u32]) -> (r: Self)
        ensures
            tags_increasing(r@),
            forall|i: int, j: int| 0 <= i < j < r@.len() ==> r@[i] < r@[j],
            forall|t: u32| #[trigger] r@.contains(t) <==> tag_blob@.contains(t),
    {
        let mut ids: Vec<u32> = Vec::new();
        let mut i: usize = 0;
        while i < tag_blob.len()
            invariant
                i <= tag_blob@.len(),
                tags_increasing(ids@),
                forall|t: u32| #[trigger]
                    ids@.contains(t) <==> tag_blob@.take(i as int).contains(t),
            decreases tag_blob@.len() - i,
        {
            let tag: u32 = tag_blob[i];
            let at: usize = lower_bound(&ids, tag);
            let ghost before = ids@;
            let ghost seen = tag_blob@.take(i as int);
            if at >= ids.len() || ids[at] != tag {
                ids.insert(at, tag);
                proof {
                    assert forall|a: int, b: int| 0 <= a < b < ids@.len() implies ids@[a]
                        < ids@[b] by {
                        if a < at && b > at {
                            assert(before[a] < before[b - 1]);
                        } else if a == at && b > at {
                            assert(before[b - 1] >= tag);
                            assert(before[at as int] != tag);
                            if b - 1 > at {
                                assert(before[at as int] < before[b - 1]);
                            }
                        }
                    }
                }
            }
            proof {
                assert(tag_blob@.take(i + 1) =~= seen.push(tag));
                assert forall|t: u32| #[trigger] ids@.contains(t) <==> tag_blob@.take(
                    i + 1,
                ).contains(t) by {
                    assert(before.contains(t) <==> seen.contains(t));
                    lemma_tag_pushed(seen, tag, t);
                    if ids@ == before {
                        assert(before[at as int] == tag);
                    } else {
                        lemma_tag_inserted(before, at as int, tag, t);
                    }
                }
            }
            i = i + 1;
        }
        assert(tag_blob@.take(i as int) =~= tag_blob@);
        TagSummary { ids }
    }

    /// Whether some row of the segment may pass the predicate. `true` is inconclusive; `false`
    /// proves that the whole segment can be skipped.
    pub fn may_match(&self, predicate: &TagPredicate) -> (r: bool)
        ensures
            r == accepts(predicate@, self@),
    {
        proof {
            use_type_invariant(self);
            use_type_invariant(predicate);
        }
        let mut g: usize = 0;
        while g < predicate.groups.len()
            invariant
                g <= predicate.groups.len(),
                tags_increasing(self.ids@),
                forall|h: int|
                    0 <= h < predicate.groups@.len() ==> tags_ordered(
                        (#[trigger] predicate.groups@[h])@,
                    ),
                forall|h: int| 0 <= h < g ==> intersect(self@, #[trigger] predicate@[h]),
            decreases predicate.groups.len() - g,
        {
            assert(predicate@[g as int] == predicate.groups@[g as int]@);
            if !sorted_intersects(&self.ids, &predicate.groups[g]) {
                return false;
            }
            g = g + 1;
        }
        true
    }

    /// The bytes that the summary holds, as far as they can be counted.
    pub fn heap_bytes(&self) -> (r: usize)
        ensures
            r == if self@.len() * TAG_ID_BYTES <= usize::MAX {
                self@.len() * TAG_ID_BYTES
            } else {
                usize::MAX as int
            },
    {
        if self.ids.len() > usize::MAX / TAG_ID_BYTES {
            return usize::MAX;
        }
        self.ids.len() * TAG_ID_BYTES
    }
}

proof fn lemma_tag_pushed(s: Seq<u32>, v: u32, t: u32)
    ensures
        s.push(v).contains(t) <==> (s.contains(t) || t == v),
{
    let p = s.push(v);
    if s.contains(t) {
        let i = choose|i: int| 0 <= i < s.len() && s[i] == t;
        assert(p[i] == t);
    }
    if p.contains(t) {
        let i = choose|i: int| 0 <= i < p.len() && p[i] == t;
        if i < s.len() {
            assert(s[i] == t);
        }
    }
    assert(p[s.len() as int] == v);
}

proof fn lemma_tag_inserted(s: Seq<u32>, at: int, v: u32, t: u32)
    requires
        0 <= at <= s.len(),
    ensures
        s.insert(at, v).contains(t) <==> (s.contains(t) || t == v),
{
    let p = s.insert(at, v);
    if s.contains(t) {
        let i = choose|i: int| 0 <= i < s.len() && s[i] == t;
        if i < at {
            assert(p[i] == t);
        } else {
            assert(p[i + 1] == t);
        }
    }
    if p.contains(t) {
        let i = choose|i: int| 0 <= i < p.len() && p[i] == t;
        if i < at {
            assert(s[i] == t);
        } else if i > at {
            assert(s[i - 1] == t);
        }
    }
    assert(p[at] == v);
}

/// All tags of a row are among those of a summary.
pub open spec fn covered(tags: Seq<u32>, summary: Seq<u32>) -> bool {
    forall|t: u32| #[trigger] tags.contains(t) ==> summary.contains(t)
}

/// Skipping is result-equivalent: where the summary of a segment rules the predicate out, no
/// row whose tags are in the segment passes it.
pub proof fn lemma_skip_is_sound(groups: Seq<Seq<u32>>, summary: Seq<u32>, row: Seq<u32>)
    requires
        covered(row, summary),
        !accepts(groups, summary),
    ensures
        !accepts(groups, row),
{
    if accepts(groups, row) {
        lemma_more_tags_more_permissive(groups, row, summary);
    }
}

/// More tags only make a summary more permissive: rows that were deleted or replaced lose a
/// chance to skip, and never cause a wrong skip.
pub proof fn lemma_more_tags_more_permissive(
    groups: Seq<Seq<u32>>,
    fewer: Seq<u32>,
    more: Seq<u32>,
)
    requires
        covered(fewer, more),
        accepts(groups, fewer),
    ensures
        accepts(groups, more),
{
    assert forall|g: int| 0 <= g < groups.len() implies intersect(more, #[trigger] groups[g]) by {
        assert(intersect(fewer, groups[g]));
        let t = choose|t: u32| #[trigger] fewer.contains(t) && groups[g].contains(t);
        assert(more.contains(t) && groups[g].contains(t));
    }
}

/// The predicate without groups rules nothing out, and an empty group rules everything out.
pub proof fn lemma_edge_predicates(summary: Seq<u32>)
    ensures
        accepts(Seq::empty(), summary),
        !accepts(seq![Seq::<u32>::empty()], summary),
{
    let groups = seq![Seq::<u32>::empty()];
    assert(!intersect(summary, groups[0]));
}

/// A row and a group have a tag in common: some tag of the row is some tag of the group.
pub open spec fn shares_tag(tags: Seq<u32>, group: Seq<u32>) -> bool {
    exists|i: int, j: int|
        0 <= i < tags.len() && 0 <= j < group.len() && #[trigger] tags[i] == #[trigger] group[j]
}

/// A predicate is passed exactly by rows that share a tag with each of its groups.
pub proof fn lemma_accepts_decides(groups: Seq<Seq<u32>>, tags: Seq<u32>)
    ensures
        accepts(groups, tags) <==> forall|g: int|
            0 <= g < groups.len() ==> shares_tag(tags, #[trigger] groups[g]),
{
    assert forall|g: int| 0 <= g < groups.len() implies intersect(
        tags,
        #[trigger] groups[g],
    ) == shares_tag(tags, groups[g]) by {
        lemma_intersect_decides(tags, groups[g]);
    }
}

/// Two sets of tags intersect exactly where some tag of the one is some tag of the other.
pub proof fn lemma_intersect_decides(a: Seq<u32>, b: Seq<u32>)
    ensures
        intersect(a, b) <==> shares_tag(a, b),
        intersect(a, b) == intersect(b, a),
{
    if intersect(a, b) {
        let t = choose|t: u32| #[trigger] a.contains(t) && b.contains(t);
        let i = choose|i: int| 0 <= i < a.len() && a[i] == t;
        let j = choose|j: int| 0 <= j < b.len() && b[j] == t;
        assert(a[i] == b[j]);
        assert(b.contains(t) && a.contains(t));
    }
    if shares_tag(a, b) {
        let (i, j) = choose|i: int, j: int|
            0 <= i < a.len() && 0 <= j < b.len() && #[trigger] a[i] == #[trigger] b[j];
        assert(a.contains(a[i]) && b.contains(a[i]));
    }
    if intersect(b, a) {
        let t = choose|t: u32| #[trigger] b.contains(t) && a.contains(t);
        assert(a.contains(t) && b.contains(t));
    }
}

/// A predicate keeps its groups: as many, in their order, each with the tags that it was given,
/// as often, in increasing order.
pub proof fn lemma_ordered_groups(groups: Seq<Seq<u32>>)
    ensures
        ordered_groups(groups).len() == groups.len(),
        forall|g: int|
            0 <= g < groups.len() ==> {
                &&& (#[trigger] ordered_groups(groups)[g]).to_multiset() == groups[g].to_multiset()
                &&& forall|i: int, j: int|
                    0 <= i < j < ordered_groups(groups)[g].len() ==> ordered_groups(groups)[g][i]
                        <= ordered_groups(groups)[g][j]
            },
{
    assert forall|g: int| 0 <= g < groups.len() implies {
        &&& (#[trigger] ordered_groups(groups)[g]).to_multiset() == groups[g].to_multiset()
        &&& tags_ordered(ordered_groups(groups)[g])
    } by {
        lemma_sorted::<u32>(groups[g]);
        lemma_sorted_tags(groups[g]);
        assert(ordered_groups(groups)[g] == sorted_by_key::<u32>(groups[g]));
    }
}

} // verus!
