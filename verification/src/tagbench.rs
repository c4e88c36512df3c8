//! The deterministic parts of the segment-skipping benchmark: its parameters, the
//! category-local split of the corpus, the order of the timed passes and the checksum of the
//! results.

use vstd::prelude::*;
use vstd::string::StringExecFns;

use crate::fnv::{FNV_OFFSET, fnv, lemma_fnv_append, mix_word};
use crate::text::{decimal, digits};

verus! {

// ---- Arguments -----------------------------------------------------------------------------

/// A decimal digit.
pub open spec fn is_digit(c: char) -> bool {
    '0' <= c && c <= '9'
}

/// The number that decimal digits write.
pub open spec fn digits_value(s: Seq<char>) -> nat
    decreases s.len(),
{
    if s.len() == 0 {
        0
    } else {
        digits_value(s.drop_last()) * 10 + (s.last() as nat - '0' as nat) as nat
    }
}

/// The number that a text writes: decimal digits, with a plus sign before them or not.
pub open spec fn decimal_value(s: Seq<char>) -> Option<nat> {
    let written = if s.len() > 0 && s[0] == '+' {
        s.skip(1)
    } else {
        s
    };
    if written.len() > 0 && forall|i: int| 0 <= i < written.len() ==> is_digit(
        #[trigger] written[i],
    ) {
        Some(digits_value(written))
    } else {
        None
    }
}

/// `str::parse` for `u64`: the number that the text writes in decimal, where it is one and
/// fits.
#[verifier::external_body]
fn parse_u64(s: &str) -> (r: Option<u64>)
    ensures
        match r {
            Some(n) => decimal_value(s@) == Some(n as nat),
            None => decimal_value(s@) is None || decimal_value(s@)->0 > u64::MAX,
        },
{
    s.parse().ok()
}

/// The number at an index of the arguments, where there is one that is at most `limit`.
pub open spec fn number_at(args: Seq<Seq<char>>, index: int, limit: nat) -> Option<nat> {
    if 0 <= index < args.len() && decimal_value(args[index]) is Some && decimal_value(
        args[index],
    )->0 <= limit {
        decimal_value(args[index])
    } else {
        None
    }
}

/// The number at an index of the arguments, or the default.
pub fn arg_u64(args: &Vec<String>, index: usize, default: u64) -> (r: u64)
    ensures
        r == match number_at(crate::keyed::views(args@), index as int, u64::MAX as nat) {
            Some(n) => n,
            None => default as nat,
        },
{
    if index >= args.len() {
        return default;
    }
    match parse_u64(args[index].as_str()) {
        Some(n) => n,
        None => default,
    }
}

/// The number at an index of the arguments, or the default.
pub fn arg_usize(args: &Vec<String>, index: usize, default: usize) -> (r: usize)
    ensures
        r == match number_at(crate::keyed::views(args@), index as int, usize::MAX as nat) {
            Some(n) => n,
            None => default as nat,
        },
{
    if index >= args.len() {
        return default;
    }
    match parse_u64(args[index].as_str()) {
        Some(n) => if n <= usize::MAX as u64 {
            n as usize
        } else {
            default
        },
        None => default,
    }
}

/// What a run is made of.
#[derive(Clone, Copy, Debug, PartialEq, Eq, Structural)]
pub struct BenchConfig {
    pub num_queries: usize,
    pub num_titles: usize,
    pub segments: usize,
    pub seed: u64,
    pub num_entities: usize,
    pub num_collections: usize,
}

/// The greater of two numbers.
pub open spec fn greatest(a: nat, b: nat) -> nat {
    if a >= b {
        a
    } else {
        b
    }
}

/// The parameters of a run: at least one query, title and segment, and no more segments than
/// queries.
pub fn bench_config(args: &Vec<String>) -> (r: BenchConfig)
    ensures
        ({
            let texts = crate::keyed::views(args@);
            let queries = greatest(
                match number_at(texts, 1, usize::MAX as nat) {
                    Some(n) => n,
                    None => 160_000,
                },
                1,
            );
            let titles = greatest(
                match number_at(texts, 2, usize::MAX as nat) {
                    Some(n) => n,
                    None => 2_000,
                },
                1,
            );
            let segments = greatest(
                match number_at(texts, 3, usize::MAX as nat) {
                    Some(n) => n,
                    None => 8,
                },
                1,
            );
            &&& r.num_queries == queries
            &&& r.num_titles == titles
            &&& r.segments == if segments <= queries {
                segments
            } else {
                queries
            }
            &&& r.seed == match number_at(texts, 5, u64::MAX as nat) {
                Some(n) => n,
                None => 0x0174,
            }
            &&& r.num_entities == greatest(queries / 40, 2_000)
            &&& r.num_collections == greatest(queries / 100, 1_000)
        }),
{
    let asked_queries: usize = arg_usize(args, 1, 160_000);
    let num_queries: usize = if asked_queries < 1 {
        1
    } else {
        asked_queries
    };
    let asked_titles: usize = arg_usize(args, 2, 2_000);
    let num_titles: usize = if asked_titles < 1 {
        1
    } else {
        asked_titles
    };
    let asked_segments: usize = arg_usize(args, 3, 8);
    let segments: usize = if asked_segments < 1 {
        1
    } else if asked_segments > num_queries {
        num_queries
    } else {
        asked_segments
    };
    let seed: u64 = arg_u64(args, 5, 0x0174);
    let entities: usize = num_queries / 40;
    let collections: usize = num_queries / 100;
    BenchConfig {
        num_queries,
        num_titles,
        segments,
        seed,
        num_entities: if entities < 2_000 {
            2_000
        } else {
            entities
        },
        num_collections: if collections < 1_000 {
            1_000
        } else {
            collections
        },
    }
}

// ---- The corpus ----------------------------------------------------------------------------

/// The tag value of a segment's category.
pub fn category(segment: usize) -> (r: String)
    ensures
        r@ == "segment-"@ + digits(segment as nat),
{
    let mut out = "segment-".to_owned();
    out.append(decimal(segment as u64).as_str());
    out
}

/// The queries of one segment, in their order.
pub open spec fn queries_of(
    queries: Seq<(u64, String)>,
    segments: nat,
    segment: int,
) -> Seq<(u64, String)>
    decreases queries.len(),
{
    if queries.len() == 0 {
        Seq::empty()
    } else {
        let rest = queries_of(queries.drop_last(), segments, segment);
        if queries.last().0 as int % segments as int == segment {
            rest.push(queries.last())
        } else {
            rest
        }
    }
}

fn clone_query(query: &(u64, String)) -> (r: (u64, String))
    ensures
        r == *query,
{
    (query.0, query.1.clone())
}

/// Splits the queries into category-local segments, by their logical id.
pub fn build_category_local(queries: &Vec<(u64, String)>, segments: usize) -> (r: Vec<
    Vec<(u64, String)>,
>)
    requires
        segments > 0,
    ensures
        r.len() == segments,
        forall|g: int|
            0 <= g < segments ==> (#[trigger] r@[g])@ == queries_of(
                queries@,
                segments as nat,
                g,
            ),
{
    let mut groups: Vec<Vec<(u64, String)>> = Vec::new();
    let mut g: usize = 0;
    while g < segments
        invariant
            g <= segments,
            groups.len() == g,
            forall|h: int|
                0 <= h < g ==> (#[trigger] groups@[h])@ == Seq::<(u64, String)>::empty(),
        decreases segments - g,
    {
        groups.push(Vec::new());
        g = g + 1;
    }
    let mut i: usize = 0;
    assert(queries@.take(0) =~= Seq::<(u64, String)>::empty());
    while i < queries.len()
        invariant
            i <= queries.len(),
            segments > 0,
            groups.len() == segments,
            forall|h: int|
                0 <= h < segments ==> (#[trigger] groups@[h])@ == queries_of(
                    queries@.take(i as int),
                    segments as nat,
                    h,
                ),
        decreases queries.len() - i,
    {
        let query = clone_query(&queries[i]);
        let at: usize = (query.0 % segments as u64) as usize;
        let ghost before = groups@;
        proof {
            assert(queries@.take(i + 1).drop_last() =~= queries@.take(i as int));
            assert(queries@.take(i + 1).last() == queries@[i as int]);
        }
        groups[at].push(query);
        proof {
            assert forall|h: int| 0 <= h < segments implies (#[trigger] groups@[h])@
                == queries_of(queries@.take(i + 1), segments as nat, h) by {
                assert(before[h]@ == queries_of(queries@.take(i as int), segments as nat, h));
            }
        }
        i = i + 1;
    }
    assert(queries@.take(i as int) =~= queries@);
    groups
}

/// Every query is in the segment of its logical id, and in no other.
pub proof fn lemma_queries_split(queries: Seq<(u64, String)>, segments: nat, segment: int)
    requires
        segments > 0,
    ensures
        forall|q: (u64, String)| #[trigger]
            queries_of(queries, segments, segment).contains(q) <==> (queries.contains(q)
                && q.0 as int % segments as int == segment),
    decreases queries.len(),
{
    if queries.len() > 0 {
        let d = queries.drop_last();
        let v = queries.last();
        lemma_queries_split(d, segments, segment);
        let rest = queries_of(d, segments, segment);
        let all = queries_of(queries, segments, segment);
        assert forall|q: (u64, String)| #[trigger] all.contains(q) <==> (queries.contains(q)
            && q.0 as int % segments as int == segment) by {
            if all.contains(q) {
                let i = choose|i: int| 0 <= i < all.len() && all[i] == q;
                if i < rest.len() {
                    assert(rest[i] == q);
                    assert(rest.contains(q));
                    let j = choose|j: int| 0 <= j < d.len() && d[j] == q;
                    assert(queries[j] == q);
                } else {
                    assert(queries[queries.len() - 1] == q);
                }
            }
            if queries.contains(q) && q.0 as int % segments as int == segment {
                let i = choose|i: int| 0 <= i < queries.len() && queries[i] == q;
                if i < d.len() {
                    assert(d[i] == q);
                    assert(d.contains(q));
                    assert(rest.contains(q));
                    let j = choose|j: int| 0 <= j < rest.len() && rest[j] == q;
                    assert(all[j] == q);
                } else {
                    assert(all[all.len() - 1] == q);
                }
            }
        }
    }
}

// ---- The passes ----------------------------------------------------------------------------

/// How often all titles are matched in one timed pass.
pub fn repetitions(titles: usize) -> (r: usize)
    ensures
        r == greatest(100_000nat / greatest(titles as nat, 1), 1),
{
    let divisor: usize = if titles < 1 {
        1
    } else {
        titles
    };
    let reps: usize = 100_000 / divisor;
    if reps < 1 {
        1
    } else {
        reps
    }
}

/// Which mode a round times first: the modes take turns.
pub fn disabled_first(round: u32) -> (r: bool)
    ensures
        r == (round % 2 == 0),
{
    round % 2 == 0
}

// ---- The results ---------------------------------------------------------------------------

/// The words of the results: each row's length, then its ids.
pub open spec fn result_words(rows: Seq<Seq<u64>>) -> Seq<u64>
    decreases rows.len(),
{
    if rows.len() == 0 {
        Seq::empty()
    } else {
        result_words(rows.drop_last()).push(rows.last().len() as u64) + rows.last()
    }
}

/// The checksum of the results of every title.
pub fn result_checksum(rows: &Vec<Vec<u64>>) -> (r: u64)
    ensures
        r == fnv(FNV_OFFSET, result_words(crate::keyed::views(rows@))),
{
    let ghost all = crate::keyed::views(rows@);
    let mut hash: u64 = FNV_OFFSET;
    let mut i: usize = 0;
    assert(all.take(0) =~= Seq::<Seq<u64>>::empty());
    while i < rows.len()
        invariant
            i <= rows.len(),
            all == crate::keyed::views(rows@),
            hash == fnv(FNV_OFFSET, result_words(all.take(i as int))),
        decreases rows.len() - i,
    {
        let row = &rows[i];
        let ghost done = result_words(all.take(i as int));
        let ghost head = done.push(row@.len() as u64);
        proof {
            assert(all.take(i + 1).drop_last() =~= all.take(i as int));
            assert(all.take(i + 1).last() == row@);
            lemma_fnv_append(FNV_OFFSET, done, seq![row@.len() as u64]);
            assert(done + seq![row@.len() as u64] =~= head);
        }
        hash = mix_word(hash, row.len() as u64);
        let mut j: usize = 0;
        assert(head + row@.take(0) =~= head);
        while j < row.len()
            invariant
                j <= row.len(),
                hash == fnv(FNV_OFFSET, head + row@.take(j as int)),
            decreases row.len() - j,
        {
            proof {
                lemma_fnv_append(FNV_OFFSET, head + row@.take(j as int), seq![row@[j as int]]);
                assert(head + row@.take(j as int) + seq![row@[j as int]] =~= head + row@.take(
                    j + 1,
                ));
            }
            hash = mix_word(hash, row[j]);
            j = j + 1;
        }
        assert(row@.take(j as int) =~= row@);
        i = i + 1;
    }
    assert(all.take(i as int) =~= all);
    hash
}

// ---- Laws ----------------------------------------------------------------------------------

/// The queries of a segment are those of the corpus whose logical id falls to it, as often and in
/// the order in which they are there.
pub proof fn lemma_queries_in_order(queries: Seq<(u64, String)>, segments: nat, segment: int)
    ensures
        queries_of(queries, segments, segment) == queries.filter(
            |q: (u64, String)| q.0 as int % segments as int == segment,
        ),
    decreases queries.len(),
{
    reveal(Seq::filter);
    if queries.len() > 0 {
        lemma_queries_in_order(queries.drop_last(), segments, segment);
    }
}

/// The greater of two numbers is one of them, and not below either.
pub proof fn lemma_greatest(a: nat, b: nat)
    ensures
        greatest(a, b) == a || greatest(a, b) == b,
        greatest(a, b) >= a,
        greatest(a, b) >= b,
{
}

/// An argument counts exactly where it is there, writes a number in decimal, and the number is
/// within the limit.
pub proof fn lemma_number_at(args: Seq<Seq<char>>, index: int, limit: nat, n: nat)
    ensures
        number_at(args, index, limit) == Some(n) <==> 0 <= index < args.len() && n <= limit
            && decimal_value(args[index]) == Some(n),
        index >= args.len() ==> number_at(args, index, limit) is None,
{
}

/// A number is read as it is written, with a plus sign or without.
pub proof fn lemma_written_number(n: nat)
    ensures
        decimal_value(digits(n)) == Some(n),
        decimal_value(seq!['+'] + digits(n)) == Some(n),
{
    lemma_digits(n);
    let written = digits(n);
    assert(is_digit(written[0]));
    let signed = seq!['+'] + written;
    assert(signed[0] == '+');
    assert(signed.skip(1) =~= written);
}

proof fn lemma_digits(n: nat)
    ensures
        digits(n).len() > 0,
        forall|i: int| 0 <= i < digits(n).len() ==> is_digit(#[trigger] digits(n)[i]),
        digits_value(digits(n)) == n,
    decreases n,
{
    let written = digits(n);
    if n < 10 {
        assert(written.drop_last() =~= Seq::<char>::empty());
        assert(written.last() == (48 + n) as char);
        assert(digits_value(Seq::<char>::empty()) == 0);
        assert(digits_value(written) == (written.last() as nat - 48) as nat);
    } else {
        lemma_digits(n / 10);
        assert(written.drop_last() =~= digits(n / 10));
        assert(written.last() == (48 + n % 10) as char);
        assert(digits_value(written) == (n / 10) * 10 + (written.last() as nat - 48) as nat);
        assert forall|i: int| 0 <= i < written.len() implies is_digit(#[trigger] written[i]) by {
            if i < written.len() - 1 {
                assert(written[i] == digits(n / 10)[i]);
            }
        }
    }
}

/// The words of the results start with those of the first row: its length, then its ids.
proof fn lemma_first_row(rows: Seq<Seq<u64>>)
    requires
        rows.len() > 0,
    ensures
        result_words(rows) == seq![rows[0].len() as u64] + rows[0] + result_words(
            rows.drop_first(),
        ),
    decreases rows.len(),
{
    let head = seq![rows[0].len() as u64] + rows[0];
    if rows.len() == 1 {
        assert(rows.drop_last() =~= Seq::<Seq<u64>>::empty());
        assert(rows.drop_first() =~= Seq::<Seq<u64>>::empty());
        assert(result_words(rows) =~= head + result_words(rows.drop_first()));
    } else {
        let d = rows.drop_last();
        lemma_first_row(d);
        assert(rows.drop_first().drop_last() =~= d.drop_first());
        assert(rows.drop_first().last() == rows.last());
        assert(result_words(rows) =~= head + result_words(rows.drop_first()));
    }
}

/// The checksum is taken of everything: results that differ in any row, in the number of rows or
/// in their order differ in their words.
pub proof fn lemma_words_tell_results(a: Seq<Seq<u64>>, b: Seq<Seq<u64>>)
    requires
        forall|i: int| 0 <= i < a.len() ==> (#[trigger] a[i]).len() <= u64::MAX,
        forall|i: int| 0 <= i < b.len() ==> (#[trigger] b[i]).len() <= u64::MAX,
        result_words(a) == result_words(b),
    ensures
        a == b,
    decreases a.len(),
{
    if a.len() > 0 {
        lemma_first_row(a);
    }
    if b.len() > 0 {
        lemma_first_row(b);
    }
    if a.len() > 0 && b.len() > 0 {
        let words = result_words(a);
        assert(words[0] == a[0].len() as u64);
        assert(words[0] == b[0].len() as u64);
        assert(a[0].len() == b[0].len());
        let n = a[0].len() as int;
        assert forall|i: int| 0 <= i < n implies a[0][i] == b[0][i] by {
            assert(words[1 + i] == a[0][i]);
            assert(words[1 + i] == b[0][i]);
        }
        assert(a[0] =~= b[0]);
        let ra = result_words(a.drop_first());
        let rb = result_words(b.drop_first());
        assert(words.skip(1 + n) =~= ra);
        assert(words.skip(1 + n) =~= rb);
        lemma_words_tell_results(a.drop_first(), b.drop_first());
        assert(a =~= seq![a[0]] + a.drop_first());
        assert(b =~= seq![b[0]] + b.drop_first());
    } else if a.len() > 0 {
        assert(result_words(a).len() > 0);
        assert(result_words(b).len() == 0);
    } else if b.len() > 0 {
        assert(result_words(b).len() > 0);
        assert(result_words(a).len() == 0);
    } else {
        assert(a =~= b);
    }
}

} // verus!
