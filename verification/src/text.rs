//! Text forms: endpoint normalization and the pieces that error messages are made of.

use vstd::prelude::*;

verus! {

/// The ASCII lower-case form of one character.
pub open spec fn lower(c: char) -> char {
    if 'A' <= c && c <= 'Z' {
        (c as u32 + 32) as char
    } else {
        c
    }
}

/// Every character in ASCII lower case.
pub open spec fn lowered(s: Seq<char>) -> Seq<char> {
    s.map_values(|c: char| lower(c))
}

/// `s` without its trailing slashes.
pub open spec fn trimmed(s: Seq<char>) -> Seq<char>
    decreases s.len(),
{
    if s.len() > 0 && s.last() == '/' {
        trimmed(s.drop_last())
    } else {
        s
    }
}

/// The identity of an endpoint: no trailing slash, ASCII lower case.
pub open spec fn normalized(endpoint: Seq<char>) -> Seq<char> {
    lowered(trimmed(endpoint))
}

/// `str::to_ascii_lowercase`: a copy with `A` to `Z` mapped to `a` to `z`, every other
/// character unchanged.
#[verifier::external_body]
fn to_lowercase(s: &str) -> (out: String)
    ensures
        out@ == lowered(s@),
{
    s.to_ascii_lowercase()
}

/// `str::trim_end_matches` with the pattern `/`: the string without the slashes it ends in.
#[verifier::external_body]
fn trim_slashes(s: &str) -> (out: &str)
    ensures
        out@ == trimmed(s@),
{
    s.trim_end_matches('/')
}

/// The normalized identity of an endpoint.
pub fn normalized_move_endpoint(endpoint: &str) -> (out: String)
    ensures
        out@ == normalized(endpoint@),
{
    to_lowercase(trim_slashes(endpoint))
}

proof fn lemma_trimmed(s: Seq<char>)
    ensures
        trimmed(s).len() > 0 ==> trimmed(s).last() != '/',
    decreases s.len(),
{
    if s.len() > 0 && s.last() == '/' {
        lemma_trimmed(s.drop_last());
    }
}

/// Normalizing a second time changes nothing.
pub proof fn lemma_normalized_idempotent(endpoint: Seq<char>)
    ensures
        normalized(normalized(endpoint)) == normalized(endpoint),
{
    lemma_trimmed(endpoint);
    let t = trimmed(endpoint);
    let n = lowered(t);
    if n.len() > 0 {
        assert(n.last() == lower(t.last()));
        assert(n.last() != '/');
    }
    assert(trimmed(n) == n);
    assert forall|i: int| 0 <= i < n.len() implies #[trigger] lowered(n)[i] == n[i] by {
        let c = t[i];
        assert(n[i] == lower(c));
        assert(lower(lower(c)) == lower(c));
    }
    assert(lowered(n) =~= n);
}

/// `identity` is `endpoint` up to its last character that is no slash, with the letters from `A`
/// to `Z` replaced by those from `a` to `z`.
pub open spec fn normal_form(endpoint: Seq<char>, identity: Seq<char>) -> bool {
    let k = identity.len() as int;
    &&& k <= endpoint.len()
    &&& k > 0 ==> endpoint[k - 1] != '/'
    &&& forall|i: int| k <= i < endpoint.len() ==> #[trigger] endpoint[i] == '/'
    &&& forall|i: int|
        0 <= i < k ==> #[trigger] identity[i] as int == if 65 <= endpoint[i] as int <= 90 {
            endpoint[i] as int + 32
        } else {
            endpoint[i] as int
        }
}

proof fn lemma_trimmed_at(s: Seq<char>, k: int)
    requires
        0 <= k <= s.len(),
        k > 0 ==> s[k - 1] != '/',
        forall|i: int| k <= i < s.len() ==> #[trigger] s[i] == '/',
    ensures
        trimmed(s) == s.take(k),
    decreases s.len(),
{
    if s.len() > k {
        assert(s.last() == '/');
        let d = s.drop_last();
        assert forall|i: int| k <= i < d.len() implies #[trigger] d[i] == '/' by {
            assert(s[i] == '/');
        }
        lemma_trimmed_at(d, k);
        assert(d.take(k) =~= s.take(k));
    } else {
        assert(s.take(k) =~= s);
    }
}

proof fn lemma_trimmed_tail(s: Seq<char>)
    ensures
        trimmed(s).len() <= s.len(),
        trimmed(s) == s.take(trimmed(s).len() as int),
        forall|i: int| trimmed(s).len() <= i < s.len() ==> #[trigger] s[i] == '/',
    decreases s.len(),
{
    if s.len() > 0 && s.last() == '/' {
        let d = s.drop_last();
        lemma_trimmed_tail(d);
        assert(d.take(trimmed(d).len() as int) =~= s.take(trimmed(d).len() as int));
        assert forall|i: int| trimmed(s).len() <= i < s.len() implies #[trigger] s[i] == '/' by {
            if i < d.len() {
                assert(d[i] == '/');
            }
        }
    } else {
        assert(s.take(s.len() as int) =~= s);
    }
}

/// Normalizing an endpoint drops the slashes that it ends in and lowers its letters, and nothing
/// else.
pub proof fn lemma_normal_form(endpoint: Seq<char>, identity: Seq<char>)
    ensures
        normal_form(endpoint, identity) <==> identity == normalized(endpoint),
{
    let t = trimmed(endpoint);
    lemma_trimmed(endpoint);
    lemma_trimmed_tail(endpoint);
    if identity == normalized(endpoint) {
        assert forall|i: int| 0 <= i < identity.len() implies #[trigger] identity[i] as int
            == if 65 <= endpoint[i] as int <= 90 {
            endpoint[i] as int + 32
        } else {
            endpoint[i] as int
        } by {
            assert(t[i] == endpoint[i]);
            assert(identity[i] == lower(t[i]));
        }
    }
    if normal_form(endpoint, identity) {
        let k = identity.len() as int;
        lemma_trimmed_at(endpoint, k);
        assert forall|i: int| 0 <= i < k implies #[trigger] identity[i] == lowered(t)[i] by {
            assert(t[i] == endpoint[i]);
            assert(identity[i] as int == lower(t[i]) as int);
        }
        assert(identity =~= lowered(t));
    }
}

/// The decimal digits of a number, without leading zeros.
pub open spec fn digits(n: nat) -> Seq<char>
    decreases n,
{
    if n < 10 {
        seq![(48 + n) as char]
    } else {
        digits(n / 10).push((48 + n % 10) as char)
    }
}

/// `u64::to_string`: the number in decimal.
#[verifier::external_body]
pub(crate) fn decimal(n: u64) -> (out: String)
    ensures
        out@ == digits(n as nat),
{
    n.to_string()
}

/// What `Debug` writes for a string: the string in double quotes, with the characters that
/// need it escaped.
pub uninterp spec fn debug_text(s: Seq<char>) -> Seq<char>;

/// The `Debug` form of a string, as `format!` writes it for `{:?}`. Which characters are
/// escaped, and how, is left to the name.
#[verifier::external_body]
pub(crate) fn quoted(s: &str) -> (out: String)
    ensures
        out@ == debug_text(s@),
{
    format!("{:?}", s)
}

} // verus!
